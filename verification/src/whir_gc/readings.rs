//! What the batched columns and the ring switch's tensors read where the
//! coordinates are bits: the named column, the named position of a packed
//! element, and the position that the next row holds.
use super::field;
use super::field::Elt;
use super::stark::{Air, Config, DIM};
use super::stark_laws;
use super::stark_laws::{row_number, row_point, truth};
use super::stark_model;
use super::stark_model::{StarkDraws, StarkM, TensorM};
use vstd::arithmetic::power2::{lemma_pow2_unfold, pow2};
use vstd::prelude::*;

verus! {

/// Column `v` of a tensor: bit `v` of each of its rows.
pub open spec fn column(t: TensorM, v: int) -> Elt {
    Seq::new(DIM as nat, |u: int| t[u][v])
}

/// Entry `i`, zero past the end.
pub open spec fn entry(values: Seq<Elt>, i: int) -> Elt {
    if 0 <= i < values.len() {
        values[i]
    } else {
        field::zero128()
    }
}

/// Elements all.
pub open spec fn elements(values: Seq<Elt>) -> bool {
    forall|i: int| 0 <= i < values.len() ==> (#[trigger] values[i]).len() == 128
}

/// The table of a Boolean point is one at the point's number and zero elsewhere.
pub proof fn law_tables_name_their_rows(bits: Seq<bool>)
    ensures
        stark_model::eq_table(row_point(bits)).len() == pow2(bits.len()),
        forall|i: int|
            0 <= i < pow2(bits.len()) ==> #[trigger] stark_model::eq_table(row_point(bits))[i]
                == truth(i == row_number(bits)),
    decreases bits.len(),
{
    vstd::arithmetic::power2::lemma2_to64();
    let t = stark_model::eq_table(row_point(bits));
    if bits.len() == 0 {
        assert(t =~= seq![field::one128()]);
    } else {
        let front = bits.drop_last();
        law_tables_name_their_rows(front);
        assert(row_point(bits).drop_last() =~= row_point(front));
        lemma_pow2_unfold(bits.len());
        let half = stark_model::eq_table(row_point(front));
        assert forall|i: int| 0 <= i < pow2(bits.len()) implies #[trigger] t[i] == truth(
            i == row_number(bits),
        ) by {
            let named = i / 2 == row_number(front);
            assert(half[i / 2] == truth(named));
            stark_laws::lemma_truth(named, bits.last());
            stark_laws::lemma_truth(named, !bits.last());
            stark_laws::lemma_truth(bits.last(), bits.last());
        }
    }
}

proof fn lemma_named(values: Seq<Elt>, w: Seq<Elt>, j: int)
    requires
        elements(values),
        forall|i: int| 0 <= i < values.len() ==> #[trigger] w[i] == truth(i == j),
    ensures
        stark_model::dot(values, w) == entry(values, j),
    decreases values.len(),
{
    field::lemma_level_128();
    if values.len() > 0 {
        let front = values.drop_last();
        let k = values.len() - 1;
        let x = values[k];
        assert forall|i: int| 0 <= i < front.len() implies (#[trigger] front[i]).len() == 128 by {
            assert(values[i].len() == 128);
        }
        lemma_named(front, w, j);
        assert(w[k] == truth(k == j));
        field::law_times_one(x);
        field::lemma_times_zero(x);
        assert(field::plus(field::zero128(), x) =~= x);
        let e = entry(front, j);
        if 0 <= j < front.len() {
            assert(values[j].len() == 128);
        }
        assert(field::plus(e, field::zero128()) =~= e);
    }
}

proof fn lemma_columns(t: TensorM)
    ensures
        stark_model::transposed(t).len() == DIM,
        elements(stark_model::transposed(t)),
        forall|v: int|
            0 <= v < DIM ==> #[trigger] stark_model::transposed(t)[v] == column(t, v),
{
    assert forall|v: int| 0 <= v < DIM implies #[trigger] stark_model::transposed(t)[v] == column(
        t,
        v,
    ) by {
        assert(stark_model::transposed(t)[v] =~= column(t, v));
    }
}

/// Where the next row of position `v` of a packed element is: rows of a column stand
/// one after the other, and the last row is its own next.
pub open spec fn next_position(height: int, v: int) -> int {
    if v % height == height - 1 {
        v
    } else {
        v + 1
    }
}

proof fn lemma_next(k: nat, v: int)
    requires
        k <= 7,
        0 <= v < 128,
    ensures
        (v + 1) % (pow2(k) as int) == 0 <==> v % (pow2(k) as int) == pow2(k) - 1,
        127int % (pow2(k) as int) == pow2(k) - 1,
        0int % (pow2(k) as int) == 0,
        pow2(k) > 0,
{
    vstd::arithmetic::power2::lemma2_to64();
    if k == 0 {
        assert((v + 1) % 1 == 0 <==> v % 1 == 0);
        assert(127int % 1 == 0 && 0int % 1 == 0);
    } else if k == 1 {
        assert((v + 1) % 2 == 0 <==> v % 2 == 1);
        assert(127int % 2 == 1 && 0int % 2 == 0);
    } else if k == 2 {
        assert((v + 1) % 4 == 0 <==> v % 4 == 3);
        assert(127int % 4 == 3 && 0int % 4 == 0);
    } else if k == 3 {
        assert((v + 1) % 8 == 0 <==> v % 8 == 7);
        assert(127int % 8 == 7 && 0int % 8 == 0);
    } else if k == 4 {
        assert((v + 1) % 16 == 0 <==> v % 16 == 15);
        assert(127int % 16 == 15 && 0int % 16 == 0);
    } else if k == 5 {
        assert((v + 1) % 32 == 0 <==> v % 32 == 31);
        assert(127int % 32 == 31 && 0int % 32 == 0);
    } else if k == 6 {
        assert((v + 1) % 64 == 0 <==> v % 64 == 63);
        assert(127int % 64 == 63 && 0int % 64 == 0);
    } else {
        assert((v + 1) % 128 == 0 <==> v % 128 == 127);
        assert(127int % 128 == 127 && 0int % 128 == 0);
    }
}

/// Batched columns at a Boolean column point: the column of that number.
pub proof fn law_batched_columns(values: Seq<Elt>, bits: Seq<bool>)
    requires
        elements(values),
        values.len() <= pow2(bits.len()),
    ensures
        stark_model::dot(values, stark_model::eq_table(row_point(bits))) == entry(
            values,
            row_number(bits),
        ),
{
    law_tables_name_their_rows(bits);
    lemma_named(values, stark_model::eq_table(row_point(bits)), row_number(bits));
}

/// Where the coordinates inside a packed element are the bits of `j`, the tensor
/// reads its column `j` for the current row, and for the next row the column where
/// that row stands: within the element while the trace's rows fit in one; else the
/// column behind `j`, and behind the last one the first of the row's successor
/// together with the last of the trace's last.
pub proof fn law_tensor_readings(cfg: Config, p: StarkM, d: StarkDraws, bits: Seq<bool>)
    requires
        bits.len() == 7,
        (d.c + d.r).len() >= 7,
        (d.c + d.r).skip((d.c + d.r).len() - 7) == row_point(bits),
        p.successor is Some <==> cfg.log_height > 7,
    ensures
        stark_model::dot(stark_model::transposed(p.tensor), stark_model::eq_low(d)) == column(
            p.tensor,
            row_number(bits),
        ),
        cfg.log_height <= 7 ==> stark_model::successor_reading(cfg, p, d) == column(
            p.tensor,
            next_position(pow2(cfg.log_height as nat) as int, row_number(bits)),
        ),
        cfg.log_height > 7 && row_number(bits) < 127 ==> stark_model::successor_reading(cfg, p, d)
            == column(p.tensor, row_number(bits) + 1),
        p.successor matches Some((carry, last)) ==> (row_number(bits) == 127
            ==> stark_model::successor_reading(cfg, p, d) == field::plus(
            column(carry, 0),
            column(last, 127),
        )),
{
    vstd::arithmetic::power2::lemma2_to64();
    field::lemma_level_128();
    let j = row_number(bits);
    stark_laws::lemma_row_bounds(bits);
    law_tables_name_their_rows(bits);
    let low = stark_model::eq_low(d);
    assert(low == stark_model::eq_table(row_point(bits)));
    let t = stark_model::transposed(p.tensor);
    lemma_columns(p.tensor);
    lemma_named(t, low, j);
    let ws = stark_model::successor_weights(cfg, low);
    assert(low[127] == truth(127 == j));
    if cfg.log_height <= 7 {
        let height = pow2(cfg.log_height as nat) as int;
        let n = next_position(height, j);
        lemma_next(cfg.log_height as nat, j);
        assert(0 <= n < 128);
        assert forall|v: int| 0 <= v < t.len() implies #[trigger] ws[v] == truth(v == n) by {
            lemma_next(cfg.log_height as nat, v);
            if v > 0 {
                lemma_next(cfg.log_height as nat, v - 1);
                assert(low[v - 1] == truth(v - 1 == j));
            }
            assert(low[v] == truth(v == j));
            stark_laws::lemma_truth(false, v - 1 == j);
            stark_laws::lemma_truth(v - 1 == j, v == j);
            stark_laws::lemma_truth(false, v == j);
            if v == 0 {
                assert(v % height == 0);
            }
        }
        lemma_named(t, ws, n);
    } else {
        let (carry, last) = p.successor->0;
        assert forall|v: int| 0 <= v < t.len() implies #[trigger] ws[v] == truth(v == j + 1) by {
            if v > 0 {
                assert(low[v - 1] == truth(v - 1 == j));
            }
        }
        lemma_named(t, ws, j + 1);
        lemma_columns(carry);
        lemma_columns(last);
        let wrap = field::plus(column(carry, 0), column(last, 127));
        assert(stark_model::transposed(carry)[0] == column(carry, 0));
        assert(stark_model::transposed(last)[127] == column(last, 127));
        field::law_times_one(wrap);
        field::law_times_comm(wrap, field::zero128());
        field::lemma_times_zero(wrap);
        assert(field::plus(field::zero128(), wrap) =~= wrap);
        if j < 127 {
            let c = column(p.tensor, j + 1);
            assert(field::plus(c, field::zero128()) =~= c);
        }
    }
}

/// What the two readings are held against at a Boolean column point: the opened
/// values of the named column, of the current row and of the next.
pub proof fn law_readings_name_their_columns(
    cfg: Config,
    p: StarkM,
    d: StarkDraws,
    cols: Seq<bool>,
)
    requires
        d.c == row_point(cols),
        p.values.len() == 2 * cfg.width,
        elements(p.values),
        cfg.width <= pow2(cols.len()),
    ensures
        row_number(cols) < cfg.width ==> (stark_model::incoming_ok(cfg, p, d) <==> stark_model::dot(
            stark_model::transposed(p.tensor),
            stark_model::eq_low(d),
        ) == p.values[row_number(cols)]),
        row_number(cols) < cfg.width ==> (stark_model::successor_ok(cfg, p, d)
            <==> stark_model::successor_reading(cfg, p, d) == p.values[cfg.width + row_number(
            cols,
        )]),
        row_number(cols) >= cfg.width ==> (stark_model::incoming_ok(cfg, p, d)
            <==> stark_model::dot(stark_model::transposed(p.tensor), stark_model::eq_low(d))
            == field::zero128()),
        row_number(cols) >= cfg.width ==> (stark_model::successor_ok(cfg, p, d)
            <==> stark_model::successor_reading(cfg, p, d) == field::zero128()),
{
    let w = cfg.width as int;
    let (now, next) = (p.values.take(w), p.values.skip(w));
    assert forall|i: int| 0 <= i < now.len() implies (#[trigger] now[i]).len() == 128 by {
        assert(p.values[i].len() == 128);
    }
    assert forall|i: int| 0 <= i < next.len() implies (#[trigger] next[i]).len() == 128 by {
        assert(p.values[i + w].len() == 128);
    }
    stark_laws::lemma_row_bounds(cols);
    law_batched_columns(now, cols);
    law_batched_columns(next, cols);
}

/// Nothing is passed over where the layers accept: the work is done, the claimed sum is
/// zero, the zerocheck ends on the batched constraints at its point weighed by the
/// equality with its challenges, the two readings are the batched values of the two
/// rows, and the ring switch ends on its weight times the value handed on.
pub proof fn law_every_layer_counts(cfg: Config, p: StarkM, air: Air, d: StarkDraws)
    requires
        stark_model::accepts(cfg, p, air, d),
        p.rs_sumcheck.len() == d.r_prime.len(),
    ensures
        d.pow_ok,
        p.claimed_sum == field::zero128(),
        d.final_sum == field::times(
            stark_model::product(stark_model::eq_factors(d.tau, d.r)),
            stark_model::air_at(
                air,
                p.values.take(cfg.width as int),
                p.values.skip(cfg.width as int),
                stark_model::boundary_at(d.r),
                d.alpha,
            ),
        ),
        stark_model::dot(stark_model::transposed(p.tensor), stark_model::eq_low(d))
            == stark_model::dot(p.values.take(cfg.width as int), stark_model::eq_table(d.c)),
        stark_model::successor_reading(cfg, p, d) == stark_model::dot(
            p.values.skip(cfg.width as int),
            stark_model::eq_table(d.c),
        ),
        stark_model::switch_claim(stark_model::switch_sum(p, d), p.rs_sumcheck, d.r_prime)
            == field::times(stark_model::switch_weight(cfg, p, d), p.final_eval),
{
    assert(p.rs_sumcheck.take(p.rs_sumcheck.len() as int) =~= p.rs_sumcheck);
}

} // verus!

//! What the multi-STARK layers absorb in front of the WHIR opening, and what they
//! draw.
use super::field;
use super::field::Elt;
use super::protocol;
use super::protocol::Machine;
use super::stark::Config;
use super::stark_model;
use super::stark_model::StarkM;
use super::stream;
use super::stream::{absorbed, elt_stream, elts_stream, joined, recorder, witness_stream, Log};
use vstd::prelude::*;

verus! {

/// The zerocheck: per round its polynomial and its witness.
pub open spec fn zerocheck_stream(
    polys: Seq<Seq<Elt>>,
    witnesses: Seq<Elt>,
    bits: nat,
) -> Seq<u8> {
    joined(|k: int| elts_stream(polys[k]) + witness_stream(bits, witnesses[k]), polys.len())
}

/// The ring switch's sumcheck: per round its message.
pub open spec fn switch_stream(msgs: Seq<(Elt, Elt)>) -> Seq<u8> {
    joined(|k: int| elt_stream(msgs[k].0) + elt_stream(msgs[k].1), msgs.len())
}

/// The zerocheck and the column batching, at the row point `r`.
#[verifier::opaque]
pub open spec fn batching_stream(cfg: Config, p: StarkM, r: Seq<Elt>) -> Seq<u8> {
    cfg.seeds.generic_degree@ + elt_stream(p.claimed_sum) + zerocheck_stream(
        p.round_polys,
        p.pow_witnesses,
        cfg.pow_bits as nat,
    ) + cfg.seeds.column_batching@ + elts_stream(r) + elts_stream(p.values)
}

/// The ring switch's statement at `point`.
#[verifier::opaque]
pub open spec fn statement_stream(cfg: Config, p: StarkM, point: Seq<Elt>) -> Seq<u8> {
    cfg.seeds.ring_switch@ + elts_stream(point) + elts_stream(p.tensor) + (match p.successor {
        Some((carry, last)) => elts_stream(carry) + elts_stream(last),
        None => Seq::empty(),
    })
}

/// Everything between the commitment and the opening: row point `r`, column point
/// `c`, and the ring switch's sumcheck where `rounds` says that there is one.
pub open spec fn prefix_stream(
    cfg: Config,
    p: StarkM,
    c: Seq<Elt>,
    r: Seq<Elt>,
    rounds: bool,
) -> Seq<u8> {
    cfg.seeds.zerocheck@ + batching_stream(cfg, p, r) + statement_stream(cfg, p, c + r) + (
    if rounds {
        cfg.seeds.quadratic@ + switch_stream(p.rs_sumcheck)
    } else {
        Seq::empty()
    }) + elt_stream(p.final_eval)
}

proof fn lemma_zerocheck(
    g: spec_fn(Log) -> u8,
    s: Log,
    claimed: Elt,
    polys: Seq<Seq<Elt>>,
    witnesses: Seq<Elt>,
    bits: nat,
)
    ensures
        absorbed(
            stark_model::zerocheck_draws(recorder(g), s, claimed, polys, witnesses, bits).0,
        ) == absorbed(s) + zerocheck_stream(polys, witnesses, bits),
    decreases polys.len(),
{
    let m = recorder(g);
    let parts = |k: int| elts_stream(polys[k]) + witness_stream(bits, witnesses[k]);
    if polys.len() == 0 {
        assert(absorbed(s) + joined(parts, 0) =~= absorbed(s));
    } else {
        let front = polys.drop_last();
        let k = (polys.len() - 1) as int;
        lemma_zerocheck(g, s, claimed, front, witnesses, bits);
        stream::lemma_same_parts(
            parts,
            |k: int| elts_stream(front[k]) + witness_stream(bits, witnesses[k]),
            front.len(),
        );
        let e = stark_model::zerocheck_draws(m, s, claimed, front, witnesses, bits).0;
        stream::lemma_elts(g, e, polys[k]);
        let f = protocol::absorb_elts(m, e, polys[k]);
        stream::lemma_witness(g, f, bits, witnesses[k]);
        stream::lemma_draw_all(g, protocol::check_witness(m, f, bits, witnesses[k]).0, 16);
        assert(absorbed(e) + elts_stream(polys[k]) + witness_stream(bits, witnesses[k])
            =~= absorbed(s) + zerocheck_stream(polys, witnesses, bits));
    }
}

proof fn lemma_switch(g: spec_fn(Log) -> u8, s: Log, msgs: Seq<(Elt, Elt)>)
    ensures
        absorbed(stark_model::switch_draws(recorder(g), s, msgs).0) == absorbed(s)
            + switch_stream(msgs),
    decreases msgs.len(),
{
    let m = recorder(g);
    let parts = |k: int| elt_stream(msgs[k].0) + elt_stream(msgs[k].1);
    if msgs.len() == 0 {
        assert(absorbed(s) + joined(parts, 0) =~= absorbed(s));
    } else {
        let front = msgs.drop_last();
        let k = (msgs.len() - 1) as int;
        lemma_switch(g, s, front);
        stream::lemma_same_parts(
            parts,
            |k: int| elt_stream(front[k].0) + elt_stream(front[k].1),
            front.len(),
        );
        let e = stark_model::switch_draws(m, s, front).0;
        stream::lemma_all(g, e, elt_stream(msgs[k].0));
        let f = protocol::absorb_elt(m, e, msgs[k].0);
        stream::lemma_all(g, f, elt_stream(msgs[k].1));
        stream::lemma_draw_all(g, protocol::absorb_elt(m, f, msgs[k].1), 16);
        assert(absorbed(e) + elt_stream(msgs[k].0) + elt_stream(msgs[k].1) =~= absorbed(s)
            + switch_stream(msgs));
    }
}

proof fn lemma_batching(g: spec_fn(Log) -> u8, s: Log, cfg: Config, p: StarkM)
    ensures
        absorbed(stark_model::batching_draws(recorder(g), s, cfg, p).0) == absorbed(s)
            + batching_stream(cfg, p, stark_model::batching_draws(recorder(g), s, cfg, p).1),
{
    reveal(batching_stream);
    let m = recorder(g);
    let bits = cfg.pow_bits as nat;
    stream::lemma_all(g, s, cfg.seeds.generic_degree@);
    let s0 = protocol::absorb_all(m, s, cfg.seeds.generic_degree@);
    stream::lemma_all(g, s0, elt_stream(p.claimed_sum));
    let s1 = protocol::absorb_elt(m, s0, p.claimed_sum);
    lemma_zerocheck(g, s1, p.claimed_sum, p.round_polys, p.pow_witnesses, bits);
    let (s2, r, _, _) = stark_model::zerocheck_draws(
        m,
        s1,
        p.claimed_sum,
        p.round_polys,
        p.pow_witnesses,
        bits,
    );
    stream::lemma_all(g, s2, cfg.seeds.column_batching@);
    let s3 = protocol::absorb_all(m, s2, cfg.seeds.column_batching@);
    stream::lemma_elts(g, s3, r);
    let s4 = protocol::absorb_elts(m, s3, r);
    stream::lemma_elts(g, s4, p.values);
    let s5 = protocol::absorb_elts(m, s4, p.values);
    stream::lemma_draw_elts(g, s5, stark_model::column_vars(cfg));
    assert(absorbed(s5) =~= absorbed(s) + batching_stream(cfg, p, r));
}

proof fn lemma_statement(g: spec_fn(Log) -> u8, s: Log, cfg: Config, p: StarkM, point: Seq<Elt>)
    ensures
        absorbed(stark_model::statement_draws(recorder(g), s, cfg, p, point).0) == absorbed(s)
            + statement_stream(cfg, p, point),
{
    reveal(statement_stream);
    let m = recorder(g);
    stream::lemma_all(g, s, cfg.seeds.ring_switch@);
    let s0 = protocol::absorb_all(m, s, cfg.seeds.ring_switch@);
    stream::lemma_elts(g, s0, point);
    let t0 = protocol::absorb_elts(m, s0, point);
    stream::lemma_elts(g, t0, p.tensor);
    let s1 = protocol::absorb_elts(m, t0, p.tensor);
    let s2 = match p.successor {
        Some((carry, last)) => protocol::absorb_elts(m, protocol::absorb_elts(m, s1, carry), last),
        None => s1,
    };
    if let Some((carry, last)) = p.successor {
        stream::lemma_elts(g, s1, carry);
        stream::lemma_elts(g, protocol::absorb_elts(m, s1, carry), last);
    }
    assert(absorbed(s2) =~= absorbed(s) + statement_stream(cfg, p, point));
    stream::lemma_draw_elts(g, s2, 7);
    stream::lemma_draw_all(g, protocol::draw_elts(m, s2, 7).0, 16);
}

proof fn lemma_nonzero_absorbs(g: spec_fn(Log) -> u8, s: Log, n: nat, fuel: nat)
    ensures
        stark_model::nonzero_draws(recorder(g), s, n, fuel) matches Some((e, _)) ==> absorbed(e)
            == absorbed(s),
    decreases fuel,
{
    if n > 0 && fuel > 0 {
        stream::lemma_draw_all(g, s, 16);
        let t = protocol::draw_elt(recorder(g), s).0;
        lemma_nonzero_absorbs(g, t, n, (fuel - 1) as nat);
        lemma_nonzero_absorbs(g, t, (n - 1) as nat, (fuel - 1) as nat);
    }
}

/// Between the commitment and the opening, whatever is drawn, the challenger absorbs
/// every seed, every message of the proof and the two points drawn for it, once and
/// in order, and nothing else.
pub proof fn law_every_layer_is_absorbed(
    g: spec_fn(Log) -> u8,
    s: Log,
    cfg: Config,
    p: StarkM,
    fuel: nat,
)
    requires
        p.round_polys.len() == cfg.log_height,
        stark_model::bit_vars(cfg) >= 7,
    ensures
        stark_model::prefix(recorder(g), s, cfg, p, fuel) matches Some((e, d)) ==> absorbed(e)
            == absorbed(s) + prefix_stream(
            cfg,
            p,
            d.c,
            d.r,
            d.prefix < stark_model::packed_vars(cfg),
        ),
{
    let m = recorder(g);
    law_surviving_point(m, s, cfg, p, fuel);
    stream::lemma_all(g, s, cfg.seeds.zerocheck@);
    let t = protocol::absorb_all(m, s, cfg.seeds.zerocheck@);
    stream::lemma_draw_all(g, t, 16);
    let t1 = protocol::draw_elt(m, t).0;
    stream::lemma_draw_all(g, t1, 16);
    let t2 = protocol::draw_elt(m, t1).0;
    lemma_nonzero_absorbs(g, t2, cfg.log_height as nat, fuel);
    if let Some((t3, _)) = stark_model::nonzero_draws(m, t2, cfg.log_height as nat, fuel) {
        lemma_batching(g, t3, cfg, p);
        let (s1, r, _, c, _) = stark_model::batching_draws(m, t3, cfg, p);
        let point = c + r;
        lemma_statement(g, s1, cfg, p, point);
        let s2 = stark_model::statement_draws(m, s1, cfg, p, point).0;
        let prefix = stark_model::boolean_prefix(stark_model::fixable(cfg, point));
        let rounds = prefix < stark_model::packed_vars(cfg);
        let q = protocol::absorb_all(m, s2, cfg.seeds.quadratic@);
        stream::lemma_all(g, s2, cfg.seeds.quadratic@);
        lemma_switch(g, q, p.rs_sumcheck);
        let s3 = if rounds {
            stark_model::switch_draws(m, q, p.rs_sumcheck).0
        } else {
            s2
        };
        stream::lemma_all(g, s3, elt_stream(p.final_eval));
        let e = protocol::absorb_elt(m, s3, p.final_eval);
        assert(absorbed(e) =~= absorbed(s) + prefix_stream(cfg, p, c, r, rounds));
    }
}

// ---------------------------------------------------------------------------
// The draws.
// ---------------------------------------------------------------------------

/// Exactly zero or one.
pub open spec fn boolean(x: Elt) -> bool {
    x == field::zero128() || x == field::one128()
}

/// The Boolean prefix is the longest one: its coordinates are bits, and the one
/// behind it, if there is one, is not.
pub proof fn law_boolean_prefix(point: Seq<Elt>)
    ensures
        stark_model::boolean_prefix(point) <= point.len(),
        forall|i: int|
            0 <= i < stark_model::boolean_prefix(point) ==> boolean(#[trigger] point[i]),
        stark_model::boolean_prefix(point) < point.len() ==> !boolean(
            point[stark_model::boolean_prefix(point) as int],
        ),
    decreases point.len(),
{
    if point.len() > 0 {
        let rest = point.skip(1);
        law_boolean_prefix(rest);
        if boolean(point[0]) {
            let k = stark_model::boolean_prefix(rest);
            assert forall|i: int| 0 <= i < k + 1 implies boolean(#[trigger] point[i]) by {
                if i > 0 {
                    assert(rest[i - 1] == point[i]);
                }
            }
        }
    }
}

/// The point at which the packed polynomial is opened: the Boolean coordinates of
/// the bit-level point's front, as many as may be fixed, then the ring switch's
/// draws.
pub proof fn law_surviving_point<St>(
    m: Machine<St>,
    s: St,
    cfg: Config,
    p: StarkM,
    fuel: nat,
)
    requires
        p.round_polys.len() == cfg.log_height,
        stark_model::bit_vars(cfg) >= 7,
    ensures
        stark_model::prefix(m, s, cfg, p, fuel) matches Some((_, d)) ==> {
            &&& d.prefix <= stark_model::packed_vars(cfg)
            &&& d.prefix <= stark_model::column_vars(cfg)
            &&& d.surviving.len() == d.prefix + d.r_prime.len()
            &&& forall|i: int|
                0 <= i < d.prefix ==> d.surviving[i] == (d.c + d.r)[i] && boolean(
                    #[trigger] d.surviving[i],
                )
            &&& forall|i: int|
                0 <= i < d.r_prime.len() ==> d.surviving[d.prefix + i] == #[trigger] d.r_prime[i]
            &&& d.prefix < stark_model::packed_vars(cfg) && d.prefix < stark_model::column_vars(
                cfg,
            ) ==> !boolean((d.c + d.r)[d.prefix as int])
        },
{
    let (t2, _, _) = stark_model::first_draws(m, s, cfg);
    if let Some((t3, _)) = stark_model::nonzero_draws(m, t2, cfg.log_height as nat, fuel) {
        let (s1, r, _, c, _) = stark_model::batching_draws(m, t3, cfg, p);
        let point = c + r;
        lemma_zerocheck_len(
            m,
            protocol::absorb_elt(
                m,
                protocol::absorb_all(m, t3, cfg.seeds.generic_degree@),
                p.claimed_sum,
            ),
            p.claimed_sum,
            p.round_polys,
            p.pow_witnesses,
            cfg.pow_bits as nat,
        );
        let s2 = stark_model::zerocheck_draws(
            m,
            protocol::absorb_elt(
                m,
                protocol::absorb_all(m, t3, cfg.seeds.generic_degree@),
                p.claimed_sum,
            ),
            p.claimed_sum,
            p.round_polys,
            p.pow_witnesses,
            cfg.pow_bits as nat,
        ).0;
        let s3 = protocol::absorb_all(m, s2, cfg.seeds.column_batching@);
        let s4 = protocol::absorb_elts(m, protocol::absorb_elts(m, s3, r), p.values);
        lemma_elts_len(m, s4, stark_model::column_vars(cfg));
        let head = stark_model::fixable(cfg, point);
        law_boolean_prefix(head);
        let k = stark_model::boolean_prefix(head);
        assert forall|i: int| 0 <= i < k implies boolean(#[trigger] point[i]) by {
            assert(head[i] == point[i]);
        }
        if k < head.len() {
            assert(head[k as int] == point[k as int]);
        }
    }
}

proof fn lemma_zerocheck_len<St>(
    m: Machine<St>,
    s: St,
    claimed: Elt,
    polys: Seq<Seq<Elt>>,
    witnesses: Seq<Elt>,
    bits: nat,
)
    ensures
        stark_model::zerocheck_draws(m, s, claimed, polys, witnesses, bits).1.len()
            == polys.len(),
    decreases polys.len(),
{
    if polys.len() > 0 {
        lemma_zerocheck_len(m, s, claimed, polys.drop_last(), witnesses, bits);
    }
}

proof fn lemma_elts_len<St>(m: Machine<St>, s: St, n: nat)
    ensures
        protocol::draw_elts(m, s, n).1.len() == n,
    decreases n,
{
    if n > 0 {
        lemma_elts_len(m, s, (n - 1) as nat);
    }
}

/// Drawing one element and then `n` more is drawing `n + 1`.
proof fn lemma_draw_first<St>(m: Machine<St>, s: St, n: nat)
    ensures
        protocol::draw_elts(m, s, n + 1).0 == protocol::draw_elts(
            m,
            protocol::draw_elt(m, s).0,
            n,
        ).0,
        protocol::draw_elts(m, s, n + 1).1 == seq![protocol::draw_elt(m, s).1]
            + protocol::draw_elts(m, protocol::draw_elt(m, s).0, n).1,
    decreases n,
{
    let (t, x) = protocol::draw_elt(m, s);
    if n == 0 {
        reveal_with_fuel(protocol::draw_elts, 2);
        assert(protocol::draw_elts(m, s, 1).1 =~= seq![x] + protocol::draw_elts(m, t, 0).1);
    } else {
        lemma_draw_first(m, s, (n - 1) as nat);
        let (e, more) = protocol::draw_elts(m, t, (n - 1) as nat);
        let y = protocol::draw_elt(m, e).1;
        assert((seq![x] + more).push(y) =~= seq![x] + more.push(y));
        assert(protocol::draw_elts(m, s, n + 1).1 =~= seq![x] + protocol::draw_elts(m, t, n).1);
    }
}

/// Not zero.
pub open spec fn nonzero() -> spec_fn(Elt) -> bool {
    |x: Elt| x != field::zero128()
}

/// Out of `k` draws, `tau` are those that are not zero, in order, and the last draw
/// is one of them.
pub open spec fn sifted<St>(m: Machine<St>, s: St, k: nat, e: St, tau: Seq<Elt>) -> bool {
    let (t, drawn) = protocol::draw_elts(m, s, k);
    &&& t == e
    &&& tau == drawn.filter(nonzero())
    &&& k > 0 ==> drawn.last() != field::zero128()
}

/// `tau` are the first `n` of at most `fuel` draws that are not zero, and nothing is
/// drawn beyond the last of them.
pub open spec fn first_nonzero<St>(
    m: Machine<St>,
    s: St,
    n: nat,
    fuel: nat,
    e: St,
    tau: Seq<Elt>,
) -> bool {
    &&& tau.len() == n
    &&& forall|i: int| 0 <= i < n ==> #[trigger] tau[i] != field::zero128()
    &&& exists|k: nat| k <= fuel && #[trigger] sifted(m, s, k, e, tau)
}

/// The nonzero challenges are the first draws that are not zero: as many as asked,
/// none of them zero, and nothing is drawn beyond the last.
pub proof fn law_nonzero_challenges<St>(m: Machine<St>, s: St, n: nat, fuel: nat)
    ensures
        stark_model::nonzero_draws(m, s, n, fuel) matches Some((e, tau))
            ==> first_nonzero(m, s, n, fuel, e, tau),
    decreases fuel,
{
    let keep = nonzero();
    if n == 0 {
        let drawn = protocol::draw_elts(m, s, 0).1;
        reveal(Seq::filter);
        assert(drawn.filter(keep) =~= Seq::<Elt>::empty());
        assert(sifted(m, s, 0, s, Seq::<Elt>::empty()));
        assert(first_nonzero(m, s, n, fuel, s, Seq::<Elt>::empty()));
    } else if fuel > 0 {
        let (t, x) = protocol::draw_elt(m, s);
        let left = if keep(x) {
            (n - 1) as nat
        } else {
            n
        };
        law_nonzero_challenges(m, t, left, (fuel - 1) as nat);
        if let Some((e, rest)) = stark_model::nonzero_draws(m, t, left, (fuel - 1) as nat) {
            let k = choose|k: nat| k <= fuel - 1 && #[trigger] sifted(m, t, k, e, rest);
            let tau = if keep(x) {
                seq![x] + rest
            } else {
                rest
            };
            let later = protocol::draw_elts(m, t, k).1;
            lemma_draw_first(m, s, k);
            lemma_elts_len(m, t, k);
            Seq::filter_distributes_over_add(seq![x], later, keep);
            reveal(Seq::filter);
            assert(seq![x].drop_last() =~= Seq::<Elt>::empty());
            assert(Seq::<Elt>::empty().filter(keep) =~= Seq::<Elt>::empty());
            assert(seq![x].filter(keep) =~= if keep(x) {
                seq![x]
            } else {
                Seq::<Elt>::empty()
            });
            let drawn = protocol::draw_elts(m, s, k + 1).1;
            assert(drawn.filter(keep) =~= tau);
            if k == 0 {
                assert(later.len() == 0);
                assert(rest.len() == 0);
                assert(drawn.last() == x);
            } else {
                assert(drawn.last() == later.last());
            }
            assert(sifted(m, s, (k + 1) as nat, e, tau));
            assert forall|i: int| 0 <= i < n implies #[trigger] tau[i] != field::zero128() by {
                if keep(x) && i > 0 {
                    assert(tau[i] == rest[i - 1]);
                }
            }
            assert(first_nonzero(m, s, n, fuel, e, tau));
        }
    }
}

} // verus!

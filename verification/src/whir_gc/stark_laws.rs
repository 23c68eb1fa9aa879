//! What the multi-STARK layers compute at the rows of the trace: a row is a
//! Boolean point, its number written with the first coordinate most significant.
use super::field;
use super::field::Elt;
use super::stark::{Node, DIM};
use super::stark_model;
use super::stark_model::TensorM;
use vstd::arithmetic::power2::{lemma_pow2_pos, lemma_pow2_unfold, pow2};
use vstd::prelude::*;

verus! {

/// A truth value as an element.
pub open spec fn truth(b: bool) -> Elt {
    if b {
        field::one128()
    } else {
        field::zero128()
    }
}

/// A truth value as a tensor: `1 (x) 1` or zero.
pub open spec fn tensor_truth(b: bool) -> TensorM {
    if b {
        stark_model::tensor_one()
    } else {
        stark_model::tensor_zero()
    }
}

/// The Boolean point of a row.
pub open spec fn row_point(bits: Seq<bool>) -> Seq<Elt> {
    Seq::new(bits.len(), |i: int| truth(bits[i]))
}

/// The number of a row, the first bit most significant.
pub open spec fn row_number(bits: Seq<bool>) -> int
    decreases bits.len(),
{
    if bits.len() == 0 {
        0
    } else {
        2 * row_number(bits.drop_last()) + (if bits.last() {
            1int
        } else {
            0int
        })
    }
}

// ---------------------------------------------------------------------------
// Rows.
// ---------------------------------------------------------------------------

pub proof fn lemma_row_bounds(bits: Seq<bool>)
    ensures
        0 <= row_number(bits) < pow2(bits.len()),
    decreases bits.len(),
{
    vstd::arithmetic::power2::lemma2_to64();
    if bits.len() > 0 {
        lemma_row_bounds(bits.drop_last());
        lemma_pow2_unfold(bits.len());
    }
}

/// The first bit weighs half of the rows.
pub proof fn lemma_row_first(bits: Seq<bool>)
    requires
        bits.len() > 0,
    ensures
        row_number(bits) == row_number(bits.skip(1)) + (if bits[0] {
            pow2((bits.len() - 1) as nat) as int
        } else {
            0int
        }),
    decreases bits.len(),
{
    vstd::arithmetic::power2::lemma2_to64();
    if bits.len() == 1 {
        assert(bits.drop_last() =~= Seq::<bool>::empty());
        assert(bits.skip(1) =~= Seq::<bool>::empty());
    } else {
        lemma_row_first(bits.drop_last());
        lemma_pow2_unfold((bits.len() - 1) as nat);
        assert(bits.drop_last().skip(1) =~= bits.skip(1).drop_last());
    }
}

/// Rows of equal numbers are one row.
pub proof fn lemma_row_unique(a: Seq<bool>, b: Seq<bool>)
    requires
        a.len() == b.len(),
        row_number(a) == row_number(b),
    ensures
        a == b,
    decreases a.len(),
{
    if a.len() > 0 {
        assert(a.last() == b.last());
        lemma_row_unique(a.drop_last(), b.drop_last());
        assert(a =~= a.drop_last().push(a.last()));
        assert(b =~= b.drop_last().push(b.last()));
    } else {
        assert(a =~= b);
    }
}

/// The last row is all ones.
proof fn lemma_row_last(bits: Seq<bool>)
    ensures
        row_number(bits) == pow2(bits.len()) - 1 <==> forall|i: int|
            0 <= i < bits.len() ==> bits[i],
        row_number(bits) == 0 <==> forall|i: int| 0 <= i < bits.len() ==> !bits[i],
    decreases bits.len(),
{
    vstd::arithmetic::power2::lemma2_to64();
    if bits.len() > 0 {
        let front = bits.drop_last();
        lemma_row_last(front);
        lemma_row_bounds(front);
        lemma_pow2_unfold(bits.len());
        assert forall|i: int| 0 <= i < front.len() implies front[i] == bits[i] by {}
        if row_number(bits) == pow2(bits.len()) - 1 {
            assert(bits.last());
            assert forall|i: int| 0 <= i < bits.len() implies bits[i] by {
                if i < front.len() {
                    assert(front[i]);
                }
            }
        }
        if row_number(bits) == 0 {
            assert forall|i: int| 0 <= i < bits.len() implies !bits[i] by {
                if i < front.len() {
                    assert(!front[i]);
                }
            }
        }
        if forall|i: int| 0 <= i < bits.len() ==> bits[i] {
            assert(bits[bits.len() - 1]);
        }
        if forall|i: int| 0 <= i < bits.len() ==> !bits[i] {
            assert(!bits[bits.len() - 1]);
        }
    }
}

// ---------------------------------------------------------------------------
// Truth values in the field.
// ---------------------------------------------------------------------------

pub proof fn lemma_truth(a: bool, b: bool)
    ensures
        field::times(truth(a), truth(b)) == truth(a && b),
        field::plus(truth(a), truth(b)) == truth(a != b),
        field::plus(field::one128(), truth(a)) == truth(!a),
        truth(true) == field::one128(),
        truth(false) == field::zero128(),
        truth(a).len() == 128,
        truth(a)[0] == a,
        field::one128() != field::zero128(),
{
    field::lemma_level_128();
    let (x, y) = (truth(a), truth(b));
    field::lemma_times_zero(x);
    field::lemma_times_zero(y);
    field::law_times_comm(y, field::zero128());
    field::law_times_one(x);
    field::law_times_one(y);
    field::law_plus_self(x);
    field::law_plus_self(y);
    field::law_plus_self(field::one128());
    field::law_plus_comm(x, y);
    field::law_plus_comm(field::one128(), field::zero128());
    assert(field::one128()[0] != field::zero128()[0]);
}

/// A product of truth values is their conjunction.
proof fn lemma_truth_product(bits: Seq<bool>)
    ensures
        stark_model::product(row_point(bits)) == truth(
            forall|i: int| 0 <= i < bits.len() ==> bits[i],
        ),
    decreases bits.len(),
{
    if bits.len() > 0 {
        let front = bits.drop_last();
        lemma_truth_product(front);
        assert(row_point(bits).drop_last() =~= row_point(front));
        let fr = forall|i: int| 0 <= i < front.len() ==> front[i];
        let al = forall|i: int| 0 <= i < bits.len() ==> bits[i];
        lemma_truth(fr, bits.last());
        if fr && bits.last() {
            assert forall|i: int| 0 <= i < bits.len() implies bits[i] by {
                if i < front.len() {
                    assert(front[i]);
                }
            }
        }
        if al {
            assert forall|i: int| 0 <= i < front.len() implies front[i] by {
                assert(bits[i]);
            }
            assert(bits[bits.len() - 1]);
        }
    }
}

// ---------------------------------------------------------------------------
// The row selectors.
// ---------------------------------------------------------------------------

/// At row `k` of `2^n`, the first-row selector is one exactly when `k` is 0, the
/// last-row selector exactly when `k` is `2^n - 1`, and the transition selector
/// exactly when it is not.
pub proof fn law_selectors_name_their_rows(
    nodes: Seq<Node>,
    local: Seq<Elt>,
    next: Seq<Elt>,
    bits: Seq<bool>,
    i: nat,
)
    requires
        i < nodes.len(),
    ensures
        ({
            let k = row_number(bits);
            let end = pow2(bits.len()) - 1;
            let v = stark_model::expr_value(
                nodes,
                local,
                next,
                stark_model::boundary_at(row_point(bits)),
                i,
            );
            &&& nodes[i as int] is IsFirstRow ==> v == truth(k == 0)
            &&& nodes[i as int] is IsLastRow ==> v == truth(k == end)
            &&& nodes[i as int] is IsTransition ==> v == truth(k != end)
        }),
{
    let p = row_point(bits);
    let flipped = Seq::new(bits.len(), |j: int| !bits[j]);
    assert(stark_model::complements(p) =~= row_point(flipped)) by {
        assert forall|j: int| 0 <= j < bits.len() implies stark_model::complements(p)[j]
            == row_point(flipped)[j] by {
            lemma_truth(bits[j], false);
        }
    }
    lemma_truth_product(bits);
    lemma_truth_product(flipped);
    lemma_row_last(bits);
    lemma_truth(row_number(bits) == pow2(bits.len()) - 1, false);
    let none = forall|j: int| 0 <= j < flipped.len() ==> flipped[j];
    if none {
        assert forall|j: int| 0 <= j < bits.len() implies !bits[j] by {
            assert(flipped[j]);
        }
    }
}

/// What an expression is of the expressions and cells it is made of: a cell is
/// read from its own row, a difference gives back what was taken off, and a
/// negation cancels what it negates.
pub proof fn law_expressions(
    nodes: Seq<Node>,
    local: Seq<Elt>,
    next: Seq<Elt>,
    b: stark_model::BoundaryM,
    i: nat,
)
    requires
        i < nodes.len(),
        forall|j: nat|
            j < i ==> (#[trigger] stark_model::expr_value(nodes, local, next, b, j)).len() == 128,
    ensures
        ({
            let at = |j: usize| stark_model::expr_value(nodes, local, next, b, j as nat);
            let v = stark_model::expr_value(nodes, local, next, b, i);
            match nodes[i as int] {
                Node::Local(k) => v == local[k as int],
                Node::Next(k) => v == next[k as int],
                Node::Constant(c) => v == c@,
                Node::Add(x, y) => x < i && y < i ==> v == field::plus(at(x), at(y)),
                Node::Sub(x, y) => x < i && y < i ==> field::plus(v, at(y)) == at(x),
                Node::Neg(x) => x < i ==> field::plus(v, at(x)) == field::zero128(),
                Node::Mul(x, y) => x < i && y < i ==> v == field::times(at(x), at(y)),
                _ => true,
            }
        }),
{
    let v = stark_model::expr_value(nodes, local, next, b, i);
    match nodes[i as int] {
        Node::Sub(x, y) => {
            if x < i && y < i {
                let s = stark_model::expr_value(nodes, local, next, b, x as nat);
                let t = stark_model::expr_value(nodes, local, next, b, y as nat);
                field::law_plus_assoc(s, t, t);
                field::law_plus_self(t);
                field::law_plus_self(s);
            }
        },
        Node::Neg(x) => {
            if x < i {
                let s = stark_model::expr_value(nodes, local, next, b, x as nat);
                field::law_plus_self(s);
            }
        },
        _ => {},
    }
}

/// The zerocheck's equality factors at two rows: one exactly where the rows are
/// the same.
pub proof fn law_rows_are_told_apart(a: Seq<bool>, b: Seq<bool>)
    requires
        a.len() == b.len(),
    ensures
        stark_model::product(stark_model::eq_factors(row_point(a), row_point(b))) == truth(
            row_number(a) == row_number(b),
        ),
{
    let same = Seq::new(a.len(), |i: int| a[i] == b[i]);
    let fs = stark_model::eq_factors(row_point(a), row_point(b));
    assert forall|i: int| 0 <= i < a.len() implies fs[i] == row_point(same)[i] by {
        lemma_truth(a[i], b[i]);
        lemma_truth(!a[i], b[i]);
    }
    assert(fs =~= row_point(same));
    lemma_truth_product(same);
    if forall|i: int| 0 <= i < same.len() ==> same[i] {
        assert forall|i: int| 0 <= i < a.len() implies a[i] == b[i] by {
            assert(same[i]);
        }
        assert(a =~= b);
    }
    if row_number(a) == row_number(b) {
        lemma_row_unique(a, b);
    }
}

// ---------------------------------------------------------------------------
// The tensors of the ring switch.
// ---------------------------------------------------------------------------

proof fn lemma_tensor_truth(b: bool)
    ensures
        stark_model::tensor_shaped(tensor_truth(b)),
        stark_model::tensor_one() != stark_model::tensor_zero(),
{
    assert forall|u: int| 0 <= u < DIM implies (#[trigger] tensor_truth(b)[u]).len() == DIM by {}
    assert(stark_model::tensor_one()[0] != stark_model::tensor_zero()[0]) by {
        lemma_truth(true, true);
    }
}

proof fn lemma_scale_rows_truth(t: TensorM, b: bool)
    requires
        stark_model::tensor_shaped(t),
    ensures
        stark_model::scale_rows(t, truth(b)) == (if b {
            t
        } else {
            stark_model::tensor_zero()
        }),
{
    field::lemma_level_128();
    let s = stark_model::scale_rows(t, truth(b));
    assert forall|u: int| 0 <= u < DIM implies s[u] == (if b {
        t
    } else {
        stark_model::tensor_zero()
    })[u] by {
        assert(t[u].len() == DIM);
        field::law_times_one(t[u]);
        field::lemma_times_zero(t[u]);
    }
    assert(s =~= (if b {
        t
    } else {
        stark_model::tensor_zero()
    }));
}

proof fn lemma_scale_columns_truth(t: TensorM, b: bool)
    requires
        stark_model::tensor_shaped(t),
    ensures
        stark_model::scale_columns(t, truth(b)) == (if b {
            t
        } else {
            stark_model::tensor_zero()
        }),
{
    let tt = stark_model::transposed(t);
    stark_model::lemma_transposed_shaped(t);
    stark_model::lemma_transposed_twice(t);
    lemma_scale_rows_truth(tt, b);
    if !b {
        let z = stark_model::tensor_zero();
        let tz = stark_model::transposed(z);
        assert forall|u: int| 0 <= u < DIM implies tz[u] == z[u] by {
            assert(tz[u] =~= z[u]);
        }
        assert(tz =~= z);
    }
}

/// The sum of a tensor with itself, and with zero.
pub proof fn lemma_tensor_sums(t: TensorM)
    requires
        stark_model::tensor_shaped(t),
    ensures
        stark_model::tensor_plus(t, t) == stark_model::tensor_zero(),
        stark_model::tensor_plus(t, stark_model::tensor_zero()) == t,
        stark_model::tensor_plus(stark_model::tensor_zero(), t) == t,
{
    let z = stark_model::tensor_zero();
    assert forall|u: int| 0 <= u < DIM implies field::plus(#[trigger] t[u], t[u]) == z[u]
        && field::plus(t[u], z[u]) == t[u] && field::plus(z[u], t[u]) == t[u] by {
        assert(t[u].len() == DIM);
        field::law_plus_self(t[u]);
        field::law_plus_comm(t[u], z[u]);
    }
    assert(stark_model::tensor_plus(t, t) =~= z);
    assert(stark_model::tensor_plus(t, z) =~= t);
    assert(stark_model::tensor_plus(z, t) =~= t);
}

/// The equality step at two bits keeps a tensor where they are equal and clears
/// it where they differ.
proof fn lemma_step_truth(t: TensorM, a: bool, b: bool)
    requires
        stark_model::tensor_shaped(t),
    ensures
        stark_model::mul_equality_factor(t, truth(a), truth(b)) == (if a == b {
            t
        } else {
            stark_model::tensor_zero()
        }),
{
    lemma_scale_columns_truth(t, a);
    lemma_scale_rows_truth(t, b);
    lemma_tensor_sums(t);
    lemma_tensor_truth(false);
    lemma_tensor_sums(stark_model::tensor_zero());
}

proof fn lemma_exterior_truth(a: bool, b: bool)
    ensures
        stark_model::exterior(truth(a), truth(b)) == tensor_truth(a && b),
{
    let e = stark_model::exterior(truth(a), truth(b));
    let t = tensor_truth(a && b);
    assert forall|u: int| 0 <= u < DIM implies e[u] == t[u] by {
        assert(field::one128()[u] == (u == 0));
        assert(!field::zero128()[u]);
    }
    assert(e =~= t);
}

/// What the successor's recursion holds over the coordinates from `k` on.
proof fn lemma_successor_from(p: Seq<bool>, o: Seq<bool>, k: int)
    requires
        p.len() == o.len(),
        0 <= k <= p.len(),
    ensures
        ({
            let (t, ca, cb) = stark_model::successor_from(row_point(p), row_point(o), k);
            let (x, y) = (row_number(p.skip(k)), row_number(o.skip(k)));
            &&& t == tensor_truth(y == x + 1)
            &&& ca == truth(x == pow2((p.len() - k) as nat) - 1)
            &&& cb == truth(y == 0)
        }),
    decreases p.len() - k,
{
    vstd::arithmetic::power2::lemma2_to64();
    if k < p.len() {
        lemma_successor_from(p, o, k + 1);
        let (t, ca, cb) = stark_model::successor_from(row_point(p), row_point(o), k + 1);
        let (ps, os) = (p.skip(k), o.skip(k));
        assert(ps.skip(1) =~= p.skip(k + 1));
        assert(os.skip(1) =~= o.skip(k + 1));
        lemma_row_first(ps);
        lemma_row_first(os);
        lemma_row_bounds(ps.skip(1));
        lemma_row_bounds(os.skip(1));
        let m = (p.len() - k - 1) as nat;
        lemma_pow2_unfold(m + 1);
        lemma_pow2_pos(m);
        let (a, b) = (p[k], o[k]);
        let (x, y) = (row_number(p.skip(k + 1)), row_number(o.skip(k + 1)));
        lemma_truth(x == pow2(m) - 1, !a);
        lemma_truth(x == pow2(m) - 1, a);
        lemma_truth(y == 0, b);
        lemma_truth(y == 0, !b);
        lemma_truth(a, a);
        lemma_truth(b, b);
        lemma_tensor_truth(y == x + 1);
        lemma_step_truth(t, a, b);
        let (u, v) = (x == pow2(m) - 1 && !a, y == 0 && b);
        lemma_exterior_truth(u, v);
        lemma_tensor_truth(u && v);
        lemma_tensor_truth(false);
        lemma_tensor_sums(tensor_truth(u && v));
        lemma_tensor_sums(tensor_truth(a == b && y == x + 1));
        assert(tensor_truth(false) == stark_model::tensor_zero());
    }
}

/// The successor element at two rows is `1 (x) 1` exactly where the second row is
/// the one after the first, and zero everywhere else: it extends the next-row
/// relation, the last row having no successor.
pub proof fn law_successor_names_the_next_row(p: Seq<bool>, o: Seq<bool>)
    requires
        p.len() == o.len(),
    ensures
        stark_model::successor_element(row_point(p), row_point(o)) == tensor_truth(
            row_number(o) == row_number(p) + 1,
        ),
        stark_model::tensor_one() != stark_model::tensor_zero(),
{
    lemma_successor_from(p, o, 0);
    lemma_tensor_truth(true);
    assert(p.skip(0) =~= p);
    assert(o.skip(0) =~= o);
}

/// Equality factors at two rows keep a tensor where the rows are the same, and
/// clear it where they differ.
pub proof fn law_equality_factors_name_the_same_row(t: TensorM, p: Seq<bool>, o: Seq<bool>)
    requires
        stark_model::tensor_shaped(t),
        p.len() == o.len(),
    ensures
        stark_model::equality_factors(t, row_point(p), row_point(o)) == (if row_number(p)
            == row_number(o) {
            t
        } else {
            stark_model::tensor_zero()
        }),
    decreases p.len(),
{
    if p.len() > 0 {
        let (pf, of) = (p.drop_last(), o.drop_last());
        law_equality_factors_name_the_same_row(t, pf, of);
        assert(row_point(p).drop_last() =~= row_point(pf));
        assert(row_point(o).drop_last() =~= row_point(of));
        lemma_tensor_truth(false);
        lemma_step_truth(t, p.last(), o.last());
        lemma_step_truth(stark_model::tensor_zero(), p.last(), o.last());
    }
}

} // verus!

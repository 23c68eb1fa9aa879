//! The zerocheck of a trace that satisfies its constraints: its round polynomials
//! are interpolated exactly, and it closes.
use super::field;
use super::field::Elt;
use super::honest::{Binary, Poly};
use super::protocol::Machine;
use super::stark::{Air, Config};
use super::stark_laws;
use super::stark_model;
use super::stark_model::{StarkDraws, StarkM};
use super::switch;
use crate::multilinear;
use crate::multilinear::Algebra;
use vstd::prelude::*;

verus! {

// ---------------------------------------------------------------------------
// Polynomials in one variable.
// ---------------------------------------------------------------------------

/// `sum c_i x^i`.
pub open spec fn poly_at(cs: Seq<Elt>, x: Elt) -> Elt
    decreases cs.len(),
{
    if cs.len() == 0 {
        field::zero128()
    } else {
        field::plus(cs[0], field::times(x, poly_at(cs.skip(1), x)))
    }
}

proof fn lemma_poly_len(cs: Seq<Elt>, x: Elt)
    requires
        multilinear::point::<Binary>(cs),
        x.len() == 128,
    ensures
        poly_at(cs, x).len() == 128,
    decreases cs.len(),
{
    field::lemma_level_128();
    if cs.len() > 0 {
        switch::lemma_skip(cs);
        lemma_poly_len(cs.skip(1), x);
        field::lemma_times_len(x, poly_at(cs.skip(1), x));
    }
}

/// The coefficients of the sum.
pub open spec fn poly_sum(a: Seq<Elt>, b: Seq<Elt>) -> Seq<Elt> {
    Seq::new(a.len(), |i: int| field::plus(a[i], b[i]))
}

proof fn lemma_poly_sum(a: Seq<Elt>, b: Seq<Elt>, x: Elt)
    requires
        multilinear::point::<Binary>(a),
        multilinear::point::<Binary>(b),
        a.len() == b.len(),
        x.len() == 128,
    ensures
        poly_at(poly_sum(a, b), x) == field::plus(poly_at(a, x), poly_at(b, x)),
        multilinear::point::<Binary>(poly_sum(a, b)),
    decreases a.len(),
{
    field::lemma_level_128();
    let s = poly_sum(a, b);
    assert forall|i: int| 0 <= i < s.len() implies Binary::has(#[trigger] s[i]) by {
        assert(Binary::has(a[i]));
    }
    if a.len() == 0 {
        field::law_plus_self(field::zero128());
    } else {
        switch::lemma_skip(a);
        switch::lemma_skip(b);
        let (ta, tb) = (a.skip(1), b.skip(1));
        lemma_poly_sum(ta, tb, x);
        assert(s.skip(1) =~= poly_sum(ta, tb));
        let (pa, pb) = (poly_at(ta, x), poly_at(tb, x));
        lemma_poly_len(ta, x);
        lemma_poly_len(tb, x);
        field::law_distribute_right(x, pa, pb);
        field::lemma_times_len(x, pa);
        field::lemma_times_len(x, pb);
        multilinear::lemma_swap::<Binary>(a[0], b[0], field::times(x, pa), field::times(x, pb));
    }
}

/// The coefficients of a multiple.
pub open spec fn poly_scaled(a: Seq<Elt>, c: Elt) -> Seq<Elt> {
    Seq::new(a.len(), |i: int| field::times(c, a[i]))
}

proof fn lemma_poly_scaled(a: Seq<Elt>, c: Elt, x: Elt)
    requires
        multilinear::point::<Binary>(a),
        c.len() == 128,
        x.len() == 128,
    ensures
        poly_at(poly_scaled(a, c), x) == field::times(c, poly_at(a, x)),
        multilinear::point::<Binary>(poly_scaled(a, c)),
    decreases a.len(),
{
    field::lemma_level_128();
    let s = poly_scaled(a, c);
    assert forall|i: int| 0 <= i < s.len() implies Binary::has(#[trigger] s[i]) by {
        assert(Binary::has(a[i]));
        field::lemma_times_len(c, a[i]);
    }
    if a.len() == 0 {
        field::lemma_times_zero(c);
    } else {
        switch::lemma_skip(a);
        let t = a.skip(1);
        lemma_poly_scaled(t, c, x);
        assert(s.skip(1) =~= poly_scaled(t, c));
        let p = poly_at(t, x);
        lemma_poly_len(t, x);
        field::lemma_times_len(x, p);
        field::law_distribute_right(c, a[0], field::times(x, p));
        field::law_times_assoc(c, x, p);
        field::law_times_comm(c, x);
        field::law_times_assoc(x, c, p);
    }
}

/// The coefficients of `(x + a)` times the polynomial: `a cs + x cs`.
pub open spec fn poly_times_linear(cs: Seq<Elt>, a: Elt) -> Seq<Elt> {
    poly_sum(poly_scaled(cs, a).push(field::zero128()), seq![field::zero128()] + cs)
}

proof fn lemma_poly_push_zero(cs: Seq<Elt>, x: Elt)
    requires
        multilinear::point::<Binary>(cs),
        x.len() == 128,
    ensures
        poly_at(cs.push(field::zero128()), x) == poly_at(cs, x),
        multilinear::point::<Binary>(cs.push(field::zero128())),
    decreases cs.len(),
{
    field::lemma_level_128();
    let zero = field::zero128();
    let s = cs.push(zero);
    multilinear::lemma_point_push::<Binary>(cs, zero);
    if cs.len() == 0 {
        assert(s.skip(1) =~= Seq::<Elt>::empty());
        assert(poly_at(s.skip(1), x) == zero);
        field::lemma_times_zero(x);
        field::law_plus_self(zero);
    } else {
        switch::lemma_skip(cs);
        lemma_poly_push_zero(cs.skip(1), x);
        assert(s.skip(1) =~= cs.skip(1).push(zero));
    }
}

proof fn lemma_poly_times_linear(cs: Seq<Elt>, a: Elt, x: Elt)
    requires
        multilinear::point::<Binary>(cs),
        a.len() == 128,
        x.len() == 128,
    ensures
        poly_at(poly_times_linear(cs, a), x) == field::times(poly_at(cs, x), field::plus(x, a)),
        multilinear::point::<Binary>(poly_times_linear(cs, a)),
        poly_times_linear(cs, a).len() == cs.len() + 1,
{
    field::lemma_level_128();
    let zero = field::zero128();
    lemma_poly_scaled(cs, a, x);
    lemma_poly_push_zero(poly_scaled(cs, a), x);
    let shifted = seq![zero] + cs;
    assert(multilinear::point::<Binary>(seq![zero]));
    multilinear::lemma_point_join::<Binary>(seq![zero], cs);
    assert(shifted.skip(1) =~= cs);
    lemma_poly_sum(poly_scaled(cs, a).push(zero), shifted, x);
    let p = poly_at(cs, x);
    lemma_poly_len(cs, x);
    field::lemma_times_len(x, p);
    field::law_plus_self(field::times(x, p));
    field::law_plus_comm(zero, field::times(x, p));
    field::law_distribute_right(p, x, a);
    field::law_times_comm(p, x);
    field::law_times_comm(p, a);
    field::lemma_times_len(p, a);
    field::law_plus_comm(field::times(p, x), field::times(p, a));
}

/// What is left after dividing by `x + a`.
pub open spec fn quotient(cs: Seq<Elt>, a: Elt) -> Seq<Elt>
    decreases cs.len(),
{
    if cs.len() <= 1 {
        Seq::empty()
    } else {
        seq![poly_at(cs.skip(1), a)] + quotient(cs.skip(1), a)
    }
}

proof fn lemma_quotient(cs: Seq<Elt>, a: Elt, x: Elt)
    requires
        multilinear::point::<Binary>(cs),
        cs.len() > 0,
        a.len() == 128,
        x.len() == 128,
    ensures
        quotient(cs, a).len() == cs.len() - 1,
        multilinear::point::<Binary>(quotient(cs, a)),
        poly_at(cs, x) == field::plus(
            poly_at(cs, a),
            field::times(field::plus(x, a), poly_at(quotient(cs, a), x)),
        ),
    decreases cs.len(),
{
    field::lemma_level_128();
    switch::lemma_skip(cs);
    let t = cs.skip(1);
    let q = quotient(cs, a);
    let d = field::plus(x, a);
    let zero = field::zero128();
    if cs.len() == 1 {
        assert(t =~= Seq::<Elt>::empty());
        assert(poly_at(t, x) == zero && poly_at(t, a) == zero);
        field::lemma_times_zero(x);
        field::lemma_times_zero(a);
        field::lemma_times_zero(d);
        field::law_plus_self(cs[0]);
        assert(poly_at(q, x) == zero);
    } else {
        lemma_quotient(t, a, x);
        let r = quotient(t, a);
        let (px, pa) = (poly_at(t, x), poly_at(t, a));
        lemma_poly_len(t, x);
        lemma_poly_len(t, a);
        lemma_poly_len(r, x);
        assert(q.skip(1) =~= r);
        assert(multilinear::point::<Binary>(seq![pa]));
        multilinear::lemma_point_join::<Binary>(seq![pa], r);
        let rx = poly_at(r, x);
        // x px = x pa + x (d rx), and x pa = a pa + d pa.
        field::lemma_times_len(d, rx);
        field::lemma_times_len(x, rx);
        field::law_distribute_right(x, pa, field::times(d, rx));
        field::law_times_assoc(x, d, rx);
        field::law_times_comm(x, d);
        field::law_times_assoc(d, x, rx);
        field::law_distribute_right(d, pa, field::times(x, rx));
        field::law_distribute_left(x, a, pa);
        let (xp, ap, dp) = (field::times(x, pa), field::times(a, pa), field::times(d, pa));
        let e = field::times(d, field::times(x, rx));
        field::lemma_times_len(x, pa);
        field::lemma_times_len(a, pa);
        field::lemma_times_len(d, pa);
        field::lemma_times_len(d, field::times(x, rx));
        // dp = xp + ap
        assert(field::plus(cs[0], field::plus(xp, e)) =~= field::plus(
            field::plus(cs[0], ap),
            field::plus(field::plus(xp, ap), e),
        ));
    }
}

/// A polynomial with as many zeros, apart from one another, as coefficients is
/// zero everywhere.
proof fn lemma_roots(cs: Seq<Elt>, roots: Seq<Elt>, x: Elt)
    requires
        multilinear::point::<Binary>(cs),
        multilinear::point::<Binary>(roots),
        cs.len() <= roots.len(),
        x.len() == 128,
        forall|i: int, j: int|
            0 <= i < j < roots.len() ==> field::unit(
                field::plus(#[trigger] roots[i], #[trigger] roots[j]),
            ),
        forall|i: int| 0 <= i < roots.len() ==> poly_at(cs, #[trigger] roots[i]) == field::zero128(),
    ensures
        poly_at(cs, x) == field::zero128(),
    decreases cs.len(),
{
    field::lemma_level_128();
    if cs.len() > 0 {
        let zero = field::zero128();
        let a = roots[0];
        switch::lemma_skip(roots);
        let rest = roots.skip(1);
        let q = quotient(cs, a);
        lemma_quotient(cs, a, x);
        assert forall|i: int| 0 <= i < rest.len() implies poly_at(q, #[trigger] rest[i])
            == zero by {
            let b = roots[i + 1];
            assert(rest[i] == b);
            assert(Binary::has(roots[i + 1]));
            lemma_quotient(cs, a, b);
            lemma_poly_len(q, b);
            let v = poly_at(q, b);
            let d = field::plus(b, a);
            field::lemma_times_len(d, v);
            let dv = field::times(d, v);
            field::law_plus_self(dv);
            field::law_plus_comm(zero, dv);
            assert(poly_at(cs, roots[0]) == zero);
            assert(dv == zero);
            assert(field::unit(field::plus(roots[0], roots[i + 1])));
            field::law_plus_comm(a, b);
            field::law_unit_inverse(d);
            let inv = field::inverse(d);
            field::law_times_comm(d, inv);
            field::law_times_assoc(inv, d, v);
            field::law_times_one(v);
            field::lemma_times_zero(inv);
        }
        assert forall|i: int, j: int| 0 <= i < j < rest.len() implies field::unit(
            field::plus(#[trigger] rest[i], #[trigger] rest[j]),
        ) by {
            assert(field::unit(field::plus(roots[i + 1], roots[j + 1])));
        }
        lemma_roots(q, rest, x);
        field::lemma_times_zero(field::plus(x, a));
        field::law_plus_self(zero);
        assert(poly_at(cs, roots[0]) == zero);
    }
}

// ---------------------------------------------------------------------------
// The interpolation.
// ---------------------------------------------------------------------------

/// The coefficients of the product of the first `k` factors other than `j`.
spec fn others(j: int, k: nat) -> Seq<Elt>
    decreases k,
{
    if k == 0 {
        seq![field::one128()]
    } else {
        poly_times_linear(
            others(j, (k - 1) as nat),
            stark_model::node(
                if k - 1 < j {
                    k - 1
                } else {
                    k as int
                },
            ),
        )
    }
}

proof fn lemma_others(j: int, k: nat, x: Elt)
    requires
        0 <= j < 5,
        k <= 4,
        x.len() == 128,
    ensures
        others(j, k).len() == k + 1,
        multilinear::point::<Binary>(others(j, k)),
        poly_at(others(j, k), x) == stark_model::product(
            stark_model::other_factors(x, j).take(k as int),
        ),
    decreases k,
{
    field::lemma_level_128();
    let fs = stark_model::other_factors(x, j);
    if k == 0 {
        let one = field::one128();
        let s = seq![one];
        assert(s.skip(1) =~= Seq::<Elt>::empty());
        assert(poly_at(s.skip(1), x) == field::zero128());
        field::lemma_times_zero(x);
        field::law_plus_self(one);
        assert(others(j, 0) == s);
    } else {
        lemma_others(j, (k - 1) as nat, x);
        let a = stark_model::node(
            if k - 1 < j {
                k - 1
            } else {
                k as int
            },
        );
        lemma_poly_times_linear(others(j, (k - 1) as nat), a, x);
        assert(fs.take(k as int).drop_last() =~= fs.take(k - 1));
    }
}

/// The coefficients of the interpolation's first `n` terms.
spec fn interpolant(full: Seq<Elt>, n: nat) -> Seq<Elt>
    decreases n,
{
    if n == 0 {
        Seq::new(5, |i: int| field::zero128())
    } else {
        let j = n - 1;
        poly_sum(
            interpolant(full, (n - 1) as nat),
            poly_scaled(
                others(j, 4),
                field::times(full[j], field::inverse(stark_model::denominator(j))),
            ),
        )
    }
}

proof fn lemma_zero_poly(n: nat, x: Elt)
    requires
        x.len() == 128,
    ensures
        poly_at(Seq::new(n, |i: int| field::zero128()), x) == field::zero128(),
    decreases n,
{
    field::lemma_level_128();
    if n > 0 {
        lemma_zero_poly((n - 1) as nat, x);
        assert(Seq::new(n, |i: int| field::zero128()).skip(1) =~= Seq::new(
            (n - 1) as nat,
            |i: int| field::zero128(),
        ));
        field::lemma_times_zero(x);
        field::law_plus_self(field::zero128());
    }
}

proof fn lemma_interpolant(full: Seq<Elt>, n: nat, x: Elt)
    requires
        full.len() == 5,
        multilinear::point::<Binary>(full),
        n <= 5,
        x.len() == 128,
    ensures
        interpolant(full, n).len() == 5,
        multilinear::point::<Binary>(interpolant(full, n)),
        poly_at(interpolant(full, n), x) == stark_model::lagrange(full, x, n),
    decreases n,
{
    field::lemma_level_128();
    if n == 0 {
        lemma_zero_poly(5, x);
    } else {
        let j = n - 1;
        lemma_interpolant(full, (n - 1) as nat, x);
        lemma_others(j, 4, x);
        let fs = stark_model::other_factors(x, j);
        assert(fs.take(4) =~= fs);
        stark_model::lemma_denominator(j);
        field::law_unit_inverse(stark_model::denominator(j));
        let inv = field::inverse(stark_model::denominator(j));
        assert(Binary::has(full[j]));
        let c = field::times(full[j], inv);
        field::lemma_times_len(full[j], inv);
        lemma_poly_scaled(others(j, 4), c, x);
        lemma_poly_sum(interpolant(full, (n - 1) as nat), poly_scaled(others(j, 4), c), x);
        let p = stark_model::product(fs);
        lemma_poly_len(others(j, 4), x);
        switch::lemma_exchange(full[j], inv, p);
    }
}

/// A round polynomial of degree at most four is interpolated exactly: from its
/// values at the nodes 0, 2, 3 and 4, and the sum of those at 0 and 1, it is
/// evaluated at any point.
pub proof fn law_round_polynomials_are_interpolated(
    cs: Seq<Elt>,
    evals: Seq<Elt>,
    running: Elt,
    x: Elt,
)
    requires
        cs.len() == 5,
        multilinear::point::<Binary>(cs),
        x.len() == 128,
        evals.len() == 4,
        evals[0] == poly_at(cs, stark_model::node(0)),
        evals[1] == poly_at(cs, stark_model::node(2)),
        evals[2] == poly_at(cs, stark_model::node(3)),
        evals[3] == poly_at(cs, stark_model::node(4)),
        running == field::plus(
            poly_at(cs, stark_model::node(0)),
            poly_at(cs, stark_model::node(1)),
        ),
    ensures
        stark_model::round_poly_at(evals, running, x) == poly_at(cs, x),
{
    field::lemma_level_128();
    let nodes = Seq::new(5, |j: int| stark_model::node(j));
    assert forall|i: int| 0 <= i < 5 implies Binary::has(#[trigger] nodes[i]) by {}
    let full = stark_model::node_values(evals, running);
    let values = Seq::new(5, |j: int| poly_at(cs, stark_model::node(j)));
    assert forall|j: int| 0 <= j < 5 implies #[trigger] full[j] == values[j] && Binary::has(
        full[j],
    ) by {
        lemma_poly_len(cs, stark_model::node(0));
        lemma_poly_len(cs, stark_model::node(1));
        lemma_poly_len(cs, stark_model::node(j));
        let (a, b) = (poly_at(cs, stark_model::node(0)), poly_at(cs, stark_model::node(1)));
        // (a + b) + a = b
        assert(field::plus(field::plus(a, b), a) =~= b);
    }
    let is = interpolant(full, 5);
    lemma_interpolant(full, 5, x);
    let d = poly_sum(cs, is);
    assert forall|j: int| 0 <= j < 5 implies poly_at(d, #[trigger] nodes[j])
        == field::zero128() by {
        lemma_interpolant(full, 5, stark_model::node(j));
        lemma_poly_sum(cs, is, stark_model::node(j));
        stark_model::lemma_lagrange_at_node(full, j, 5);
        assert(full[j] == values[j]);
        field::law_plus_self(full[j]);
    }
    assert forall|i: int, j: int| 0 <= i < j < 5 implies field::unit(
        field::plus(#[trigger] nodes[i], #[trigger] nodes[j]),
    ) by {
        stark_model::lemma_node_difference(i, j);
    }
    lemma_poly_sum(cs, is, x);
    lemma_roots(d, nodes, x);
    let (a, b) = (poly_at(cs, x), poly_at(is, x));
    lemma_poly_len(cs, x);
    lemma_poly_len(is, x);
    assert(a =~= field::plus(field::plus(a, b), b));
    field::law_plus_self(b);
    field::law_plus_comm(field::zero128(), b);
}

// ---------------------------------------------------------------------------
// The sumcheck.
// ---------------------------------------------------------------------------

/// As a function of coordinate `k` at `p`, `z` is the polynomial `cs`.
pub open spec fn graph(z: Poly, p: Seq<Elt>, k: int, cs: Seq<Elt>) -> bool {
    &&& cs.len() == 5
    &&& multilinear::point::<Binary>(cs)
    &&& forall|x: Elt| x.len() == 128 ==> #[trigger] z(p.update(k, x)) == poly_at(cs, x)
}

/// As a function of coordinate `k` at `p`, `z` has degree at most four.
pub open spec fn quartic(z: Poly, p: Seq<Elt>, k: int) -> bool {
    exists|cs: Seq<Elt>| #[trigger] graph(z, p, k, cs)
}

/// `z` has degree at most four in each of its `n` variables.
pub open spec fn low_degree(z: Poly, n: nat) -> bool {
    forall|p: Seq<Elt>, k: int|
        multilinear::point::<Binary>(p) && p.len() == n && 0 <= k < n ==> #[trigger] quartic(
            z,
            p,
            k,
        )
}

/// A sum over the hypercube has degree at most four in a coordinate that stays.
proof fn lemma_cube_degree(z: Poly, s: Seq<Elt>, n: nat, k: int) -> (cs: Seq<Elt>)
    requires
        low_degree(z, s.len() + n),
        multilinear::point::<Binary>(s),
        0 <= k < s.len(),
    ensures
        cs.len() == 5,
        multilinear::point::<Binary>(cs),
        forall|x: Elt|
            x.len() == 128 ==> #[trigger] multilinear::cube_sum::<Binary>(z, s.update(k, x), n)
                == poly_at(cs, x),
    decreases n,
{
    if n == 0 {
        assert(quartic(z, s, k));
        let cs = choose|cs: Seq<Elt>| #[trigger] graph(z, s, k, cs);
        assert forall|x: Elt| x.len() == 128 implies #[trigger] multilinear::cube_sum::<Binary>(
            z,
            s.update(k, x),
            n,
        ) == poly_at(cs, x) by {
            assert(z(s.update(k, x)) == poly_at(cs, x));
        }
        cs
    } else {
        let (zero, one) = (field::zero128(), field::one128());
        let m = (n - 1) as nat;
        multilinear::lemma_point_push::<Binary>(s, zero);
        multilinear::lemma_point_push::<Binary>(s, one);
        let c0 = lemma_cube_degree(z, s.push(zero), m, k);
        let c1 = lemma_cube_degree(z, s.push(one), m, k);
        let cs = poly_sum(c0, c1);
        lemma_poly_sum(c0, c1, zero);
        assert forall|x: Elt| x.len() == 128 implies #[trigger] multilinear::cube_sum::<Binary>(
            z,
            s.update(k, x),
            n,
        ) == poly_at(cs, x) by {
            lemma_poly_sum(c0, c1, x);
            assert(s.push(zero).update(k, x) =~= s.update(k, x).push(zero));
            assert(s.push(one).update(k, x) =~= s.update(k, x).push(one));
            assert(multilinear::cube_sum::<Binary>(z, s.push(zero).update(k, x), m) == poly_at(
                c0,
                x,
            ));
            assert(multilinear::cube_sum::<Binary>(z, s.push(one).update(k, x), m) == poly_at(
                c1,
                x,
            ));
        }
        cs
    }
}

/// A round's message holds the values of the sum over the variables left, as a
/// function of the one after `s`, at the nodes 0, 2, 3 and 4.
pub open spec fn true_message(z: Poly, s: Seq<Elt>, n: nat, evals: Seq<Elt>) -> bool {
    let at = |j: int| multilinear::cube_sum::<Binary>(z, s.push(stark_model::node(j)), n);
    evals == seq![at(0), at(2), at(3), at(4)]
}

proof fn lemma_nodes()
    ensures
        stark_model::node(0) == field::zero128(),
        stark_model::node(1) == field::one128(),
{
    assert forall|i: int| 0 <= i < 128 implies stark_model::node(0)[i] == field::zero128()[i] by {
        field::lemma_zero_bits(i);
    }
    assert(stark_model::node(0) =~= field::zero128());
    lemma_one_bits();
    assert(stark_model::node(1) =~= field::one128());
}

proof fn lemma_one_bits()
    ensures
        forall|i: int| 0 <= i < 128 ==> field::bit(1, i) == (i == 0),
{
    assert forall|i: int| 0 <= i < 128 implies field::bit(1, i) == (i == 0) by {
        let k = i as u128;
        assert((1u128 >> k) & 1u128 == (if k == 0 { 1u128 } else { 0u128 })) by (bit_vector)
            requires
                k < 128,
        ;
    }
}

/// A true running sum and a true message give a true running sum with one more
/// variable bound.
pub proof fn law_zerocheck_round(z: Poly, s: Seq<Elt>, n: nat, evals: Seq<Elt>, x: Elt)
    requires
        low_degree(z, s.len() + n + 1),
        multilinear::point::<Binary>(s),
        x.len() == 128,
        true_message(z, s, n, evals),
    ensures
        stark_model::round_poly_at(evals, multilinear::cube_sum::<Binary>(z, s, n + 1), x)
            == multilinear::cube_sum::<Binary>(z, s.push(x), n),
{
    lemma_nodes();
    let zero = field::zero128();
    let t = s.push(zero);
    let k = s.len() as int;
    multilinear::lemma_point_push::<Binary>(s, zero);
    let cs = lemma_cube_degree(z, t, n, k);
    assert forall|y: Elt| y.len() == 128 implies multilinear::cube_sum::<Binary>(
        z,
        #[trigger] s.push(y),
        n,
    ) == poly_at(cs, y) by {
        assert(t.update(k, y) =~= s.push(y));
        assert(multilinear::cube_sum::<Binary>(z, t.update(k, y), n) == poly_at(cs, y));
    }
    let at = |j: int| multilinear::cube_sum::<Binary>(z, s.push(stark_model::node(j)), n);
    assert forall|j: int| 0 <= j < 5 implies #[trigger] at(j) == poly_at(
        cs,
        stark_model::node(j),
    ) by {
        assert(stark_model::node(j).len() == 128);
    }
    assert(evals[0] == at(0) && evals[1] == at(2) && evals[2] == at(3) && evals[3] == at(4));
    assert(at(1) == poly_at(cs, stark_model::node(1)));
    law_round_polynomials_are_interpolated(
        cs,
        evals,
        multilinear::cube_sum::<Binary>(z, s, n + 1),
        x,
    );
}

/// The rounds' messages are true, each under the draws before it.
pub open spec fn true_messages(z: Poly, n: nat, polys: Seq<Seq<Elt>>, r: Seq<Elt>) -> bool {
    forall|k: int|
        0 <= k < polys.len() ==> true_message(
            z,
            r.take(k),
            (n - k - 1) as nat,
            #[trigger] polys[k],
        )
}

/// The zerocheck of a true sum ends on the summed polynomial's value at the point
/// that is drawn.
pub proof fn law_zerocheck_ends_on_the_value<St>(
    m: Machine<St>,
    st: St,
    z: Poly,
    n: nat,
    polys: Seq<Seq<Elt>>,
    witnesses: Seq<Elt>,
    bits: nat,
    r: Seq<Elt>,
)
    requires
        low_degree(z, n),
        polys.len() <= n,
        multilinear::point::<Binary>(r),
        r.len() == polys.len(),
        r == stark_model::zerocheck_draws(
            m,
            st,
            multilinear::cube_sum::<Binary>(z, Seq::empty(), n),
            polys,
            witnesses,
            bits,
        ).1,
        true_messages(z, n, polys, r),
    ensures
        stark_model::zerocheck_draws(
            m,
            st,
            multilinear::cube_sum::<Binary>(z, Seq::empty(), n),
            polys,
            witnesses,
            bits,
        ).2 == multilinear::cube_sum::<Binary>(z, r, (n - r.len()) as nat),
    decreases polys.len(),
{
    let claimed = multilinear::cube_sum::<Binary>(z, Seq::empty(), n);
    if polys.len() == 0 {
        assert(r =~= Seq::<Elt>::empty());
    } else {
        let front = polys.drop_last();
        let k = front.len() as int;
        let before = stark_model::zerocheck_draws(m, st, claimed, front, witnesses, bits);
        lemma_draws_len(m, st, claimed, front, witnesses, bits);
        let q = before.1;
        assert(q =~= r.take(k));
        assert forall|i: int| 0 <= i < q.len() implies Binary::has(#[trigger] q[i]) by {
            assert(Binary::has(r[i]));
        }
        assert forall|i: int| 0 <= i < front.len() implies true_message(
            z,
            q.take(i),
            (n - i - 1) as nat,
            #[trigger] front[i],
        ) by {
            assert(front[i] == polys[i]);
            assert(q.take(i) =~= r.take(i));
        }
        law_zerocheck_ends_on_the_value(m, st, z, n, front, witnesses, bits, q);
        assert(true_message(z, r.take(k), (n - k - 1) as nat, polys[k]));
        assert(Binary::has(r[k]));
        law_zerocheck_round(z, q, (n - k - 1) as nat, polys[k], r[k]);
        assert(q.push(r[k]) =~= r);
    }
}

proof fn lemma_draws_len<St>(
    m: Machine<St>,
    st: St,
    claimed: Elt,
    polys: Seq<Seq<Elt>>,
    witnesses: Seq<Elt>,
    bits: nat,
)
    ensures
        stark_model::zerocheck_draws(m, st, claimed, polys, witnesses, bits).1.len() == polys.len(),
    decreases polys.len(),
{
    if polys.len() > 0 {
        lemma_draws_len(m, st, claimed, polys.drop_last(), witnesses, bits);
    }
}

// ---------------------------------------------------------------------------
// The constraints.
// ---------------------------------------------------------------------------

/// The cells of a row, and of the row after it, at every row point.
pub type Cells = spec_fn(Seq<Elt>) -> Seq<Elt>;

/// Every constraint vanishes at every row.
pub open spec fn satisfied(air: Air, local: Cells, next: Cells, n: nat) -> bool {
    forall|b: Seq<bool>, i: int|
        b.len() == n && 0 <= i < air.constraints@.len() ==> #[trigger] constraint_at(
            air,
            local,
            next,
            stark_laws::row_point(b),
            i,
        ) == field::zero128()
}

/// The value of constraint `i` at a row point.
pub open spec fn constraint_at(air: Air, local: Cells, next: Cells, p: Seq<Elt>, i: int) -> Elt {
    stark_model::expr_value(
        air.nodes@,
        local(p),
        next(p),
        stark_model::boundary_at(p),
        air.constraints@[i] as nat,
    )
}

/// The batched constraints, weighed by the equality with `tau`.
pub open spec fn zero_poly(air: Air, local: Cells, next: Cells, alpha: Elt, tau: Seq<Elt>) -> Poly {
    |p: Seq<Elt>|
        field::times(
            stark_model::product(stark_model::eq_factors(tau, p)),
            stark_model::air_at(air, local(p), next(p), stark_model::boundary_at(p), alpha),
        )
}

proof fn lemma_vanishes(air: Air, local: Cells, next: Cells, p: Seq<Elt>, alpha: Elt, k: nat)
    requires
        k <= air.constraints@.len(),
        alpha.len() == 128,
        forall|i: int|
            0 <= i < air.constraints@.len() ==> #[trigger] constraint_at(air, local, next, p, i)
                == field::zero128(),
    ensures
        stark_model::air_horner(
            air,
            local(p),
            next(p),
            stark_model::boundary_at(p),
            alpha,
            k,
        ) == field::zero128(),
    decreases k,
{
    field::lemma_level_128();
    if k > 0 {
        lemma_vanishes(air, local, next, p, alpha, (k - 1) as nat);
        assert(constraint_at(air, local, next, p, k - 1) == field::zero128());
        field::lemma_times_zero(alpha);
        field::law_times_comm(alpha, field::zero128());
        field::law_plus_self(field::zero128());
    }
}

proof fn lemma_sum_vanishes(z: Poly, b: Seq<bool>, n: nat)
    requires
        forall|c: Seq<bool>|
            c.len() == b.len() + n ==> z(#[trigger] stark_laws::row_point(c)) == field::zero128(),
    ensures
        multilinear::cube_sum::<Binary>(z, stark_laws::row_point(b), n) == field::zero128(),
    decreases n,
{
    if n > 0 {
        let p = stark_laws::row_point(b);
        assert(stark_laws::row_point(b.push(false)) =~= p.push(field::zero128()));
        assert(stark_laws::row_point(b.push(true)) =~= p.push(field::one128()));
        lemma_sum_vanishes(z, b.push(false), (n - 1) as nat);
        lemma_sum_vanishes(z, b.push(true), (n - 1) as nat);
        field::law_plus_self(field::zero128());
    }
}

/// The zerocheck of a trace that satisfies its constraints passes: its sum is
/// zero, and with true messages and the columns' true values at the point drawn it
/// closes.
#[verifier::rlimit(60)]
pub proof fn law_true_traces_pass_the_zerocheck<St>(
    m: Machine<St>,
    st: St,
    cfg: Config,
    p: StarkM,
    air: Air,
    d: StarkDraws,
    local: Cells,
    next: Cells,
)
    requires
        satisfied(air, local, next, d.tau.len()),
        d.alpha.len() == 128,
        multilinear::point::<Binary>(d.tau),
        multilinear::point::<Binary>(d.r),
        d.r.len() == d.tau.len(),
        low_degree(zero_poly(air, local, next, d.alpha, d.tau), d.tau.len()),
        p.claimed_sum == field::zero128(),
        p.round_polys.len() == d.tau.len(),
        true_messages(
            zero_poly(air, local, next, d.alpha, d.tau),
            d.tau.len(),
            p.round_polys,
            d.r,
        ),
        ({
            let drawn = stark_model::zerocheck_draws(
                m,
                st,
                p.claimed_sum,
                p.round_polys,
                p.pow_witnesses,
                cfg.pow_bits as nat,
            );
            d.r == drawn.1 && d.final_sum == drawn.2
        }),
        local(d.r).len() == cfg.width,
        p.values == local(d.r) + next(d.r),
    ensures
        stark_model::zerocheck_closes(cfg, p, air, d),
{
    let n = d.tau.len();
    let z = zero_poly(air, local, next, d.alpha, d.tau);
    let none = Seq::<bool>::empty();
    assert forall|c: Seq<bool>| c.len() == none.len() + n implies z(
        #[trigger] stark_laws::row_point(c),
    ) == field::zero128() by {
        let q = stark_laws::row_point(c);
        assert forall|i: int| 0 <= i < air.constraints@.len() implies #[trigger] constraint_at(
            air,
            local,
            next,
            q,
            i,
        ) == field::zero128() by {}
        lemma_vanishes(air, local, next, q, d.alpha, air.constraints@.len());
        let e = stark_model::eq_factors(d.tau, q);
        assert forall|i: int| 0 <= i < e.len() implies (#[trigger] e[i]).len() == 128 by {}
        stark_model::lemma_product_len(e);
        field::lemma_level_128();
        field::lemma_times_zero(stark_model::product(e));
    }
    lemma_sum_vanishes(z, none, n);
    assert(stark_laws::row_point(none) =~= Seq::<Elt>::empty());
    law_zerocheck_ends_on_the_value(
        m,
        st,
        z,
        n,
        p.round_polys,
        p.pow_witnesses,
        cfg.pow_bits as nat,
        d.r,
    );
    let w = cfg.width as int;
    assert(p.values.take(w) =~= local(d.r));
    assert(p.values.skip(w) =~= next(d.r));
}

} // verus!

//! What keeps different values different: sums, products with units, sumchecks
//! under units, and batches by powers of a unit.
use crate::multilinear;
use crate::multilinear::Algebra;
use vstd::prelude::*;

verus! {

/// Has an inverse.
pub open spec fn unit<A: Algebra>(x: A::E) -> bool {
    exists|y: A::E| A::has(y) && #[trigger] A::times(x, y) == A::one()
}

/// Units all.
pub open spec fn units<A: Algebra>(xs: Seq<A::E>) -> bool {
    forall|i: int| 0 <= i < xs.len() ==> A::has(#[trigger] xs[i]) && unit::<A>(xs[i])
}

/// Elements all, in pairs.
pub open spec fn pairs<A: Algebra>(ms: Seq<(A::E, A::E)>) -> bool {
    forall|i: int| 0 <= i < ms.len() ==> A::has((#[trigger] ms[i]).0) && A::has(ms[i].1)
}

pub proof fn lemma_times_apart<A: Algebra>(a: A::E, b: A::E, x: A::E)
    requires
        A::has(a),
        A::has(b),
        A::has(x),
        unit::<A>(x),
        a != b,
    ensures
        A::times(a, x) != A::times(b, x),
        A::times(x, a) != A::times(x, b),
{
    let y = choose|y: A::E| A::has(y) && #[trigger] A::times(x, y) == A::one();
    A::products(a, x, y);
    A::products(b, x, y);
    A::products(a, y, y);
    A::products(b, y, y);
}

pub proof fn lemma_plus_apart<A: Algebra>(a: A::E, b: A::E, z: A::E)
    requires
        A::has(a),
        A::has(b),
        A::has(z),
        a != b,
    ensures
        A::plus(a, z) != A::plus(b, z),
        A::plus(z, a) != A::plus(z, b),
{
    A::sums(a, z, z);
    A::sums(b, z, z);
    if A::plus(a, z) == A::plus(b, z) {
        multilinear::lemma_cancel::<A>(a, b, z);
    }
}

/// Different claims stay different over a round whose challenge is a unit.
pub proof fn lemma_next_apart<A: Algebra>(c: A::E, d: A::E, m: (A::E, A::E), x: A::E)
    requires
        A::has(c),
        A::has(d),
        A::has(m.0),
        A::has(m.1),
        A::has(x),
        unit::<A>(x),
        c != d,
    ensures
        multilinear::next_claim::<A>(c, m, x) != multilinear::next_claim::<A>(d, m, x),
{
    A::constants();
    let one = A::one();
    let (p, q) = (A::minus(c, m.0), A::minus(d, m.0));
    A::closed(c, m.0);
    A::closed(d, m.0);
    A::sums(c, m.0, m.0);
    A::sums(d, m.0, m.0);
    assert(p != q);
    lemma_times_apart::<A>(p, q, x);
    A::closed(p, x);
    A::closed(q, x);
    A::closed(one, x);
    A::closed(x, one);
    let front = A::times(m.0, A::minus(one, x));
    A::closed(m.0, A::minus(one, x));
    A::closed(x, A::minus(x, one));
    let back = A::times(m.1, A::times(x, A::minus(x, one)));
    A::closed(m.1, A::times(x, A::minus(x, one)));
    lemma_plus_apart::<A>(A::times(p, x), A::times(q, x), front);
    A::closed(front, A::times(p, x));
    A::closed(front, A::times(q, x));
    lemma_plus_apart::<A>(
        A::plus(front, A::times(p, x)),
        A::plus(front, A::times(q, x)),
        back,
    );
}

pub proof fn lemma_next_has<A: Algebra>(c: A::E, m: (A::E, A::E), x: A::E)
    requires
        A::has(c),
        A::has(m.0),
        A::has(m.1),
        A::has(x),
    ensures
        A::has(multilinear::next_claim::<A>(c, m, x)),
{
    A::constants();
    let one = A::one();
    let p = A::minus(c, m.0);
    A::closed(c, m.0);
    A::closed(p, x);
    A::closed(one, x);
    A::closed(x, one);
    A::closed(m.0, A::minus(one, x));
    A::closed(x, A::minus(x, one));
    A::closed(m.1, A::times(x, A::minus(x, one)));
    A::closed(A::times(m.0, A::minus(one, x)), A::times(p, x));
    A::closed(
        A::plus(A::times(m.0, A::minus(one, x)), A::times(p, x)),
        A::times(m.1, A::times(x, A::minus(x, one))),
    );
}

/// Different claims stay different over a sumcheck whose challenges are units.
pub proof fn lemma_through_apart<A: Algebra>(
    c: A::E,
    d: A::E,
    ms: Seq<(A::E, A::E)>,
    rs: Seq<A::E>,
    k: nat,
)
    requires
        A::has(c),
        A::has(d),
        pairs::<A>(ms),
        units::<A>(rs),
        k <= ms.len(),
        k <= rs.len(),
    ensures
        A::has(multilinear::claim_through::<A>(c, ms, rs, k)),
        A::has(multilinear::claim_through::<A>(d, ms, rs, k)),
        c != d ==> multilinear::claim_through::<A>(c, ms, rs, k)
            != multilinear::claim_through::<A>(d, ms, rs, k),
    decreases k,
{
    if k > 0 {
        let j = (k - 1) as nat;
        lemma_through_apart::<A>(c, d, ms, rs, j);
        let (p, q) = (
            multilinear::claim_through::<A>(c, ms, rs, j),
            multilinear::claim_through::<A>(d, ms, rs, j),
        );
        assert(A::has(ms[j as int].0) && A::has(ms[j as int].1));
        assert(A::has(rs[j as int]) && unit::<A>(rs[j as int]));
        lemma_next_has::<A>(p, ms[j as int], rs[j as int]);
        lemma_next_has::<A>(q, ms[j as int], rs[j as int]);
        if c != d {
            lemma_next_apart::<A>(p, q, ms[j as int], rs[j as int]);
        }
    }
}

/// `x^e`.
pub open spec fn power<A: Algebra>(x: A::E, e: nat) -> A::E
    decreases e,
{
    if e == 0 {
        A::one()
    } else {
        A::times(power::<A>(x, (e - 1) as nat), x)
    }
}

/// A unit's powers are units.
pub proof fn lemma_power_unit<A: Algebra>(x: A::E, e: nat)
    requires
        A::has(x),
        unit::<A>(x),
    ensures
        A::has(power::<A>(x, e)),
        unit::<A>(power::<A>(x, e)),
    decreases e,
{
    A::constants();
    if e == 0 {
        A::products(A::one(), A::one(), A::one());
        assert(A::times(A::one(), A::one()) == A::one());
    } else {
        let p = power::<A>(x, (e - 1) as nat);
        lemma_power_unit::<A>(x, (e - 1) as nat);
        A::closed(p, x);
        let u = choose|y: A::E| A::has(y) && #[trigger] A::times(p, y) == A::one();
        let v = choose|y: A::E| A::has(y) && #[trigger] A::times(x, y) == A::one();
        A::closed(v, u);
        A::closed(x, v);
        A::products(p, x, A::times(v, u));
        A::products(x, v, u);
        A::products(A::one(), u, u);
        A::products(u, A::one(), u);
        assert(A::times(A::times(p, x), A::times(v, u)) == A::one());
    }
}

/// `base + sum chi^(shift + i) e_i`.
pub open spec fn batched<A: Algebra>(base: A::E, chi: A::E, shift: nat, evals: Seq<A::E>) -> A::E
    decreases evals.len(),
{
    if evals.len() == 0 {
        base
    } else {
        A::plus(
            batched::<A>(base, chi, shift, evals.drop_last()),
            A::times(power::<A>(chi, (shift + evals.len() - 1) as nat), evals.last()),
        )
    }
}

/// Two batches under a unit that differ in their base alone, or in one value alone,
/// differ.
pub proof fn lemma_batched_apart<A: Algebra>(
    b: A::E,
    c: A::E,
    chi: A::E,
    shift: nat,
    x: Seq<A::E>,
    y: Seq<A::E>,
    j: int,
)
    requires
        A::has(b),
        A::has(c),
        A::has(chi),
        unit::<A>(chi),
        multilinear::point::<A>(x),
        multilinear::point::<A>(y),
        x.len() == y.len(),
        forall|k: int| 0 <= k < x.len() && k != j ==> #[trigger] x[k] == y[k],
    ensures
        A::has(batched::<A>(b, chi, shift, x)),
        A::has(batched::<A>(c, chi, shift, y)),
        b != c && !(0 <= j < x.len()) ==> batched::<A>(b, chi, shift, x) != batched::<A>(
            c,
            chi,
            shift,
            y,
        ),
        b == c && 0 <= j < x.len() && x[j] != y[j] ==> batched::<A>(b, chi, shift, x)
            != batched::<A>(c, chi, shift, y),
        b == c && !(0 <= j < x.len()) ==> batched::<A>(b, chi, shift, x) == batched::<A>(
            c,
            chi,
            shift,
            y,
        ),
    decreases x.len(),
{
    if x.len() > 0 {
        let n = x.len() - 1;
        let (f, g) = (x.drop_last(), y.drop_last());
        assert forall|i: int| 0 <= i < f.len() implies A::has(#[trigger] f[i]) by {
            assert(A::has(x[i]));
        }
        assert forall|i: int| 0 <= i < g.len() implies A::has(#[trigger] g[i]) by {
            assert(A::has(y[i]));
        }
        assert forall|k: int| 0 <= k < f.len() && k != j implies #[trigger] f[k] == g[k] by {
            assert(x[k] == y[k]);
        }
        lemma_batched_apart::<A>(b, c, chi, shift, f, g, j);
        let p = power::<A>(chi, (shift + n) as nat);
        lemma_power_unit::<A>(chi, (shift + n) as nat);
        assert(A::has(x[n]) && A::has(y[n]));
        A::closed(p, x[n]);
        A::closed(p, y[n]);
        let (u, v) = (batched::<A>(b, chi, shift, f), batched::<A>(c, chi, shift, g));
        A::closed(u, A::times(p, x[n]));
        A::closed(v, A::times(p, y[n]));
        if j == n {
            if x[n] != y[n] {
                lemma_times_apart::<A>(x[n], y[n], p);
                lemma_plus_apart::<A>(A::times(p, x[n]), A::times(p, y[n]), u);
            }
        } else {
            assert(x[n] == y[n]);
            if u != v {
                lemma_plus_apart::<A>(u, v, A::times(p, x[n]));
            }
            if 0 <= j < n {
                assert(f[j] == x[j] && g[j] == y[j]);
            }
        }
    }
}

} // verus!

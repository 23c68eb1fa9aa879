//! Multilinear polynomials over a commutative ring, their sums over the Boolean
//! hypercube, and the sumcheck that binds one variable after another.
//!
//! A polynomial is a function of points that is affine in every coordinate. The
//! coordinates of a point stand in the order in which they are bound.
use vstd::arithmetic::power2::{lemma_pow2_unfold, pow2};
use vstd::prelude::*;

verus! {

/// A commutative ring.
pub trait Algebra {
    type E;

    /// The elements of the ring among all values of the type.
    spec fn has(x: Self::E) -> bool;

    spec fn zero() -> Self::E;

    spec fn one() -> Self::E;

    spec fn plus(x: Self::E, y: Self::E) -> Self::E;

    spec fn minus(x: Self::E, y: Self::E) -> Self::E;

    spec fn times(x: Self::E, y: Self::E) -> Self::E;

    proof fn closed(x: Self::E, y: Self::E)
        requires
            Self::has(x),
            Self::has(y),
        ensures
            Self::has(Self::zero()),
            Self::has(Self::one()),
            Self::has(Self::plus(x, y)),
            Self::has(Self::minus(x, y)),
            Self::has(Self::times(x, y)),
    ;

    proof fn constants()
        ensures
            Self::has(Self::zero()),
            Self::has(Self::one()),
    ;

    proof fn sums(x: Self::E, y: Self::E, z: Self::E)
        requires
            Self::has(x),
            Self::has(y),
            Self::has(z),
        ensures
            Self::plus(x, y) == Self::plus(y, x),
            Self::plus(Self::plus(x, y), z) == Self::plus(x, Self::plus(y, z)),
            Self::plus(x, Self::zero()) == x,
            Self::plus(Self::minus(x, y), y) == x,
    ;

    proof fn products(x: Self::E, y: Self::E, z: Self::E)
        requires
            Self::has(x),
            Self::has(y),
            Self::has(z),
        ensures
            Self::times(x, y) == Self::times(y, x),
            Self::times(Self::times(x, y), z) == Self::times(x, Self::times(y, z)),
            Self::times(x, Self::one()) == x,
            Self::times(x, Self::plus(y, z)) == Self::plus(Self::times(x, y), Self::times(x, z)),
    ;
}

// ---------------------------------------------------------------------------
// Arithmetic.
// ---------------------------------------------------------------------------

/// What is added to equal sums is equal.
pub proof fn lemma_cancel<A: Algebra>(x: A::E, y: A::E, z: A::E)
    requires
        A::has(x),
        A::has(y),
        A::has(z),
        A::plus(x, z) == A::plus(y, z),
    ensures
        x == y,
{
    A::constants();
    let n = A::minus(A::zero(), z);
    A::closed(A::zero(), z);
    A::sums(A::zero(), z, z);
    A::sums(n, z, z);
    A::sums(x, z, n);
    A::sums(y, z, n);
    A::sums(z, n, n);
    assert(A::plus(z, n) == A::zero());
}

pub proof fn lemma_zero<A: Algebra>(x: A::E)
    requires
        A::has(x),
    ensures
        A::times(x, A::zero()) == A::zero(),
        A::times(A::zero(), x) == A::zero(),
        A::plus(A::zero(), x) == x,
        A::times(A::one(), x) == x,
        A::minus(x, x) == A::zero(),
        A::minus(x, A::zero()) == x,
{
    A::constants();
    let z = A::zero();
    A::closed(x, z);
    A::closed(x, x);
    A::closed(x, A::one());
    A::sums(z, z, z);
    A::products(x, z, z);
    A::products(z, x, z);
    A::products(A::one(), x, z);
    A::products(x, A::one(), z);
    let t = A::times(x, z);
    A::sums(t, z, z);
    A::sums(z, t, z);
    A::sums(z, x, z);
    A::sums(x, z, z);
    A::sums(x, x, z);
    assert(A::plus(t, t) == A::plus(z, t));
    lemma_cancel::<A>(t, z, t);
    lemma_cancel::<A>(A::minus(x, x), z, x);
    A::sums(A::minus(x, z), z, z);
}

/// Four terms, paired otherwise.
pub proof fn lemma_swap<A: Algebra>(a: A::E, b: A::E, c: A::E, d: A::E)
    requires
        A::has(a),
        A::has(b),
        A::has(c),
        A::has(d),
    ensures
        A::plus(A::plus(a, b), A::plus(c, d)) == A::plus(A::plus(a, c), A::plus(b, d)),
{
    A::closed(a, b);
    A::closed(c, d);
    A::closed(b, d);
    A::closed(b, c);
    A::sums(a, b, A::plus(c, d));
    A::sums(b, c, d);
    A::sums(c, b, d);
    A::sums(a, c, A::plus(b, d));
    A::sums(b, c, b);
}

/// A difference of sums, and a multiple of a difference.
pub proof fn lemma_minus<A: Algebra>(a: A::E, b: A::E, c: A::E, d: A::E)
    requires
        A::has(a),
        A::has(b),
        A::has(c),
        A::has(d),
    ensures
        A::minus(A::plus(a, c), A::plus(b, d)) == A::plus(A::minus(a, b), A::minus(c, d)),
        A::times(c, A::minus(a, b)) == A::minus(A::times(c, a), A::times(c, b)),
        A::minus(A::plus(a, b), a) == b,
{
    A::closed(a, c);
    A::closed(b, d);
    A::closed(a, b);
    A::closed(c, d);
    A::closed(c, a);
    A::closed(c, b);
    let (s, t) = (A::plus(a, c), A::plus(b, d));
    let (u, v) = (A::minus(a, b), A::minus(c, d));
    A::closed(s, t);
    A::closed(u, v);
    lemma_swap::<A>(u, v, b, d);
    A::sums(a, b, a);
    A::sums(c, d, a);
    A::sums(s, t, a);
    lemma_cancel::<A>(A::minus(s, t), A::plus(u, v), t);
    let (p, q) = (A::times(c, a), A::times(c, b));
    A::products(c, u, b);
    A::closed(p, q);
    A::closed(c, u);
    A::sums(p, q, a);
    lemma_cancel::<A>(A::times(c, u), A::minus(p, q), q);
    let w = A::plus(a, b);
    A::closed(w, a);
    A::sums(w, a, a);
    A::sums(b, a, a);
    lemma_cancel::<A>(A::minus(w, a), b, a);
}

/// The affine function that is `a` at 0 and `b` at 1, at `x`.
pub open spec fn lerp<A: Algebra>(a: A::E, b: A::E, x: A::E) -> A::E {
    A::plus(a, A::times(x, A::minus(b, a)))
}

pub proof fn lemma_lerp<A: Algebra>(a: A::E, b: A::E, c: A::E, d: A::E, x: A::E)
    requires
        A::has(a),
        A::has(b),
        A::has(c),
        A::has(d),
        A::has(x),
    ensures
        A::has(lerp::<A>(a, b, x)),
        A::plus(lerp::<A>(a, b, x), lerp::<A>(c, d, x)) == lerp::<A>(
            A::plus(a, c),
            A::plus(b, d),
            x,
        ),
        A::times(c, lerp::<A>(a, b, x)) == lerp::<A>(A::times(c, a), A::times(c, b), x),
        lerp::<A>(a, a, x) == a,
        lerp::<A>(a, b, A::zero()) == a,
        lerp::<A>(a, b, A::one()) == b,
{
    A::constants();
    A::closed(a, b);
    A::closed(b, a);
    A::closed(c, d);
    A::closed(d, c);
    A::closed(a, c);
    A::closed(b, d);
    A::closed(c, a);
    A::closed(c, b);
    let (u, v) = (A::minus(b, a), A::minus(d, c));
    A::closed(x, u);
    A::closed(x, v);
    A::closed(a, A::times(x, u));
    lemma_swap::<A>(a, A::times(x, u), c, A::times(x, v));
    A::products(x, u, v);
    lemma_minus::<A>(b, a, d, c);
    lemma_minus::<A>(b, a, c, c);
    A::products(c, a, A::times(x, u));
    A::products(c, x, u);
    A::products(x, c, u);
    lemma_zero::<A>(a);
    lemma_zero::<A>(x);
    lemma_zero::<A>(u);
    A::sums(a, u, a);
    A::sums(b, a, a);
}

/// The affine function by its two weights.
pub proof fn lemma_blend<A: Algebra>(a: A::E, b: A::E, x: A::E)
    requires
        A::has(a),
        A::has(b),
        A::has(x),
    ensures
        A::plus(A::times(a, A::minus(A::one(), x)), A::times(b, x)) == lerp::<A>(a, b, x),
        A::plus(A::times(A::minus(A::one(), x), a), A::times(x, b)) == lerp::<A>(a, b, x),
{
    A::constants();
    let u = A::minus(A::one(), x);
    A::closed(A::one(), x);
    A::sums(A::one(), x, x);
    A::closed(b, a);
    let d = A::minus(b, a);
    A::sums(b, a, a);
    A::sums(d, a, a);
    A::closed(a, u);
    A::closed(a, x);
    A::closed(a, d);
    A::closed(x, d);
    A::products(x, a, d);
    A::products(b, x, x);
    A::products(a, u, x);
    A::products(a, x, x);
    A::products(a, A::one(), x);
    A::sums(A::times(a, u), A::times(a, x), A::times(x, d));
    A::products(u, a, a);
    A::products(x, b, b);
    // x b = x (a + d)
    assert(A::plus(a, d) == b);
    assert(A::times(x, b) == A::plus(A::times(x, a), A::times(x, d)));
    assert(A::plus(A::times(a, u), A::times(a, x)) == a);
    A::products(x, a, a);
    A::products(a, x, a);
}

/// The value at `r` of the quadratic through `e0` at 0 and `e1` at 1 with leading
/// coefficient `e_inf`.
pub open spec fn quadratic<A: Algebra>(e0: A::E, e1: A::E, e_inf: A::E, r: A::E) -> A::E {
    A::plus(
        A::plus(A::times(e0, A::minus(A::one(), r)), A::times(e1, r)),
        A::times(e_inf, A::times(r, A::minus(r, A::one()))),
    )
}

/// Quadratics add up.
proof fn lemma_quadratic_sum<A: Algebra>(
    a: A::E,
    b: A::E,
    c: A::E,
    e: A::E,
    f: A::E,
    g: A::E,
    r: A::E,
)
    requires
        A::has(a),
        A::has(b),
        A::has(c),
        A::has(e),
        A::has(f),
        A::has(g),
        A::has(r),
    ensures
        A::has(quadratic::<A>(a, b, c, r)),
        A::plus(quadratic::<A>(a, b, c, r), quadratic::<A>(e, f, g, r)) == quadratic::<A>(
            A::plus(a, e),
            A::plus(b, f),
            A::plus(c, g),
            r,
        ),
{
    A::constants();
    A::closed(A::one(), r);
    A::closed(r, A::one());
    let u = A::minus(A::one(), r);
    let v = A::minus(r, A::one());
    A::closed(r, v);
    let w = A::times(r, v);
    A::closed(a, u);
    A::closed(b, r);
    A::closed(c, w);
    A::closed(e, u);
    A::closed(f, r);
    A::closed(g, w);
    A::closed(a, e);
    A::closed(b, f);
    A::closed(c, g);
    A::products(u, a, e);
    A::products(r, b, f);
    A::products(w, c, g);
    A::products(u, e, e);
    A::products(r, f, f);
    A::products(w, g, g);
    A::products(u, A::plus(a, e), e);
    A::products(r, A::plus(b, f), f);
    A::products(w, A::plus(c, g), g);
    let (au, br, cw) = (A::times(a, u), A::times(b, r), A::times(c, w));
    let (eu, fr, gw) = (A::times(e, u), A::times(f, r), A::times(g, w));
    A::closed(au, br);
    A::closed(eu, fr);
    lemma_swap::<A>(A::plus(au, br), cw, A::plus(eu, fr), gw);
    lemma_swap::<A>(au, br, eu, fr);
    A::closed(A::plus(au, br), cw);
}

/// The product of two affine functions is the quadratic through its values at 0
/// and 1 with the product of the slopes as leading coefficient.
proof fn lemma_product<A: Algebra>(f0: A::E, f1: A::E, w0: A::E, w1: A::E, r: A::E)
    requires
        A::has(f0),
        A::has(f1),
        A::has(w0),
        A::has(w1),
        A::has(r),
    ensures
        quadratic::<A>(
            A::times(f0, w0),
            A::times(f1, w1),
            A::times(A::minus(f1, f0), A::minus(w1, w0)),
            r,
        ) == A::times(lerp::<A>(f0, f1, r), lerp::<A>(w0, w1, r)),
{
    A::constants();
    let d = A::minus(f1, f0);
    let g = A::minus(w1, w0);
    let v = A::minus(r, A::one());
    A::closed(f1, f0);
    A::closed(w1, w0);
    A::closed(r, A::one());
    A::sums(f1, f0, f0);
    A::sums(w1, w0, w0);
    A::sums(r, A::one(), r);
    A::sums(d, f0, d);
    A::sums(g, w0, g);
    // f1 = f0 + d, w1 = w0 + g, r = v + 1.
    let (fw, fg, dw, dg) = (
        A::times(f0, w0),
        A::times(f0, g),
        A::times(d, w0),
        A::times(d, g),
    );
    A::closed(f0, w0);
    A::closed(f0, g);
    A::closed(d, w0);
    A::closed(d, g);
    A::closed(f1, w1);
    let e1 = A::times(f1, w1);
    A::products(f1, w0, g);
    A::products(w0, f0, d);
    A::products(g, f0, d);
    A::products(f0, w0, w0);
    A::products(d, w0, w0);
    A::products(f1, w0, w0);
    A::products(f1, g, g);
    A::products(f0, g, g);
    A::products(d, g, g);
    assert(A::plus(f0, d) == f1);
    assert(A::plus(w0, g) == w1);
    assert(e1 == A::plus(A::plus(fw, dw), A::plus(fg, dg)));
    // The affine part is fw + r (e1 - fw).
    lemma_blend::<A>(fw, e1, r);
    let slope = A::plus(A::plus(fg, dw), dg);
    A::closed(fg, dw);
    A::closed(dw, fg);
    A::closed(A::plus(fg, dw), dg);
    A::closed(fg, dg);
    A::sums(fw, dw, A::plus(fg, dg));
    A::sums(dw, fg, dg);
    A::sums(fg, dw, dg);
    A::closed(dw, A::plus(fg, dg));
    assert(e1 == A::plus(fw, slope));
    lemma_minus::<A>(fw, slope, fw, fw);
    assert(A::minus(e1, fw) == slope);
    let affine = A::plus(fw, A::times(r, slope));
    // r slope + dg r v = r (fg + dw) + dg r r.
    let m = A::plus(fg, dw);
    A::products(r, m, dg);
    A::closed(r, m);
    A::closed(r, dg);
    A::closed(r, v);
    A::closed(dg, A::times(r, v));
    let (rm, rdg, dgrv) = (A::times(r, m), A::times(r, dg), A::times(dg, A::times(r, v)));
    A::closed(rm, rdg);
    A::sums(fw, A::plus(rm, rdg), dgrv);
    A::sums(rm, rdg, dgrv);
    A::products(dg, A::times(r, v), r);
    A::products(r, v, A::one());
    A::products(r, dg, dg);
    A::closed(r, r);
    A::products(r, A::one(), A::one());
    A::sums(A::times(r, v), r, r);
    A::sums(v, A::one(), r);
    assert(A::plus(A::times(r, v), r) == A::times(r, r));
    A::products(dg, r, r);
    A::sums(rdg, dgrv, r);
    let dgrr = A::times(dg, A::times(r, r));
    A::closed(dg, A::times(r, r));
    assert(A::plus(rdg, dgrv) == dgrr);
    let left = A::plus(fw, A::plus(rm, dgrr));
    assert(A::plus(affine, dgrv) == left);
    // (f0 + r d)(w0 + r g) = (fw + r fg) + (r dw + dg r r).
    let (rd, rg) = (A::times(r, d), A::times(r, g));
    A::closed(r, d);
    A::closed(r, g);
    A::closed(f0, rd);
    let lf = A::plus(f0, rd);
    A::products(lf, w0, rg);
    A::products(w0, f0, rd);
    A::products(rg, f0, rd);
    A::products(lf, w0, w0);
    A::products(lf, rg, rg);
    A::products(rd, w0, w0);
    A::products(f0, rg, rg);
    A::products(rd, rg, rg);
    A::closed(rd, w0);
    A::closed(f0, rg);
    A::closed(rd, rg);
    A::products(f0, r, g);
    A::products(r, f0, g);
    A::products(r, d, w0);
    A::products(r, d, rg);
    A::products(d, r, g);
    A::products(r, A::times(d, g), r);
    A::products(d, g, r);
    A::products(r, fg, dw);
    A::closed(r, fg);
    A::closed(r, dw);
    let (rfg, rdw) = (A::times(r, fg), A::times(r, dw));
    assert(A::times(f0, rg) == rfg) by {
        A::products(f0, rg, rg);
    }
    assert(A::times(rd, w0) == rdw);
    assert(A::times(rd, rg) == dgrr) by {
        // (r d)(r g) = r (d (r g)) = r ((r d) g) = r (r (d g)) = (r r) dg.
        A::products(r, d, rg);
        A::products(d, r, g);
        A::products(r, d, g);
        A::products(r, r, dg);
        A::products(A::times(r, r), dg, r);
        assert(A::times(d, rg) == A::times(A::times(d, r), g));
        assert(A::times(d, r) == rd);
        assert(A::times(rd, g) == A::times(r, dg));
    }
    assert(A::times(lf, w0) == A::plus(fw, rdw));
    assert(A::times(lf, rg) == A::plus(rfg, dgrr));
    A::closed(rfg, rdw);
    A::closed(rdw, rfg);
    A::closed(rfg, dgrr);
    A::sums(fw, rdw, A::plus(rfg, dgrr));
    A::sums(rdw, rfg, dgrr);
    A::sums(rfg, rdw, dgrr);
    A::closed(rm, dgrr);
    assert(rm == A::plus(rfg, rdw));
    assert(A::times(lf, A::plus(w0, rg)) == left);
}

// ---------------------------------------------------------------------------
// Points and polynomials.
// ---------------------------------------------------------------------------

/// Every coordinate is an element of the ring.
pub open spec fn point<A: Algebra>(p: Seq<A::E>) -> bool {
    forall|i: int| 0 <= i < p.len() ==> A::has(#[trigger] p[i])
}

pub open spec fn bit<A: Algebra>(b: bool) -> A::E {
    if b {
        A::one()
    } else {
        A::zero()
    }
}

/// The function is affine in coordinate `k` at the point `p`.
pub open spec fn affine_at<A: Algebra>(
    f: spec_fn(Seq<A::E>) -> A::E,
    p: Seq<A::E>,
    k: int,
    x: A::E,
) -> bool {
    f(p.update(k, x)) == lerp::<A>(f(p.update(k, A::zero())), f(p.update(k, A::one())), x)
}

/// A multilinear polynomial in `n` variables: a function of `n` coordinates, with
/// values in the ring, that is affine in each of them.
pub open spec fn polynomial<A: Algebra>(f: spec_fn(Seq<A::E>) -> A::E, n: nat) -> bool {
    &&& forall|p: Seq<A::E>| point::<A>(p) && p.len() == n ==> A::has(#[trigger] f(p))
    &&& forall|p: Seq<A::E>, k: int, x: A::E|
        point::<A>(p) && p.len() == n && 0 <= k < n && A::has(x) ==> #[trigger] affine_at::<A>(
            f,
            p,
            k,
            x,
        )
}

/// `sum g(s + b)` over the Boolean `b` of length `n`.
pub open spec fn cube_sum<A: Algebra>(g: spec_fn(Seq<A::E>) -> A::E, s: Seq<A::E>, n: nat) -> A::E
    decreases n,
{
    if n == 0 {
        g(s)
    } else {
        A::plus(
            cube_sum::<A>(g, s.push(A::zero()), (n - 1) as nat),
            cube_sum::<A>(g, s.push(A::one()), (n - 1) as nat),
        )
    }
}

/// The product of two functions.
pub open spec fn product<A: Algebra>(
    f: spec_fn(Seq<A::E>) -> A::E,
    w: spec_fn(Seq<A::E>) -> A::E,
) -> spec_fn(Seq<A::E>) -> A::E {
    |p: Seq<A::E>| A::times(f(p), w(p))
}

/// The product of two functions' slopes in coordinate `k`: the leading coefficient
/// of their product as a function of that coordinate.
pub open spec fn leading<A: Algebra>(
    f: spec_fn(Seq<A::E>) -> A::E,
    w: spec_fn(Seq<A::E>) -> A::E,
    k: int,
) -> spec_fn(Seq<A::E>) -> A::E {
    |p: Seq<A::E>|
        A::times(
            A::minus(f(p.update(k, A::one())), f(p.update(k, A::zero()))),
            A::minus(w(p.update(k, A::one())), w(p.update(k, A::zero()))),
        )
}

/// The function has values in the ring.
pub open spec fn total<A: Algebra>(g: spec_fn(Seq<A::E>) -> A::E, n: nat) -> bool {
    forall|p: Seq<A::E>| point::<A>(p) && p.len() == n ==> A::has(#[trigger] g(p))
}

pub proof fn lemma_point_push<A: Algebra>(s: Seq<A::E>, x: A::E)
    requires
        point::<A>(s),
        A::has(x),
    ensures
        point::<A>(s.push(x)),
{
    assert forall|i: int| 0 <= i < s.push(x).len() implies A::has(#[trigger] s.push(x)[i]) by {
        if i < s.len() {
            assert(s.push(x)[i] == s[i]);
        }
    }
}

pub proof fn lemma_point_update<A: Algebra>(s: Seq<A::E>, k: int, x: A::E)
    requires
        point::<A>(s),
        A::has(x),
        0 <= k < s.len(),
    ensures
        point::<A>(s.update(k, x)),
        s.update(k, x).len() == s.len(),
{
    assert forall|i: int| 0 <= i < s.len() implies A::has(#[trigger] s.update(k, x)[i]) by {
        if i != k {
            assert(s.update(k, x)[i] == s[i]);
        }
    }
}

pub proof fn lemma_point_join<A: Algebra>(s: Seq<A::E>, t: Seq<A::E>)
    requires
        point::<A>(s),
        point::<A>(t),
    ensures
        point::<A>(s + t),
{
    assert forall|i: int| 0 <= i < (s + t).len() implies A::has(#[trigger] (s + t)[i]) by {
        if i < s.len() {
            assert((s + t)[i] == s[i]);
        } else {
            assert((s + t)[i] == t[i - s.len()]);
        }
    }
}

pub proof fn lemma_cube_has<A: Algebra>(g: spec_fn(Seq<A::E>) -> A::E, s: Seq<A::E>, n: nat)
    requires
        point::<A>(s),
        total::<A>(g, s.len() + n),
    ensures
        A::has(cube_sum::<A>(g, s, n)),
    decreases n,
{
    if n > 0 {
        A::constants();
        lemma_point_push::<A>(s, A::zero());
        lemma_point_push::<A>(s, A::one());
        let m = (n - 1) as nat;
        lemma_cube_has::<A>(g, s.push(A::zero()), m);
        lemma_cube_has::<A>(g, s.push(A::one()), m);
        A::closed(
            cube_sum::<A>(g, s.push(A::zero()), m),
            cube_sum::<A>(g, s.push(A::one()), m),
        );
    }
}

pub proof fn lemma_product_total<A: Algebra>(
    f: spec_fn(Seq<A::E>) -> A::E,
    w: spec_fn(Seq<A::E>) -> A::E,
    n: nat,
)
    requires
        total::<A>(f, n),
        total::<A>(w, n),
    ensures
        total::<A>(product::<A>(f, w), n),
        forall|k: int| 0 <= k < n ==> total::<A>(#[trigger] leading::<A>(f, w, k), n),
{
    A::constants();
    assert forall|p: Seq<A::E>| point::<A>(p) && p.len() == n implies A::has(
        #[trigger] product::<A>(f, w)(p),
    ) by {
        A::closed(f(p), w(p));
    }
    assert forall|k: int| 0 <= k < n implies total::<A>(#[trigger] leading::<A>(f, w, k), n) by {
        let g = leading::<A>(f, w, k);
        assert forall|p: Seq<A::E>| point::<A>(p) && p.len() == n implies A::has(
            #[trigger] g(p),
        ) by {
            lemma_point_update::<A>(p, k, A::zero());
            lemma_point_update::<A>(p, k, A::one());
            let (p0, p1) = (p.update(k, A::zero()), p.update(k, A::one()));
            assert(A::has(f(p0)) && A::has(f(p1)) && A::has(w(p0)) && A::has(w(p1)));
            A::closed(f(p1), f(p0));
            A::closed(w(p1), w(p0));
            A::closed(A::minus(f(p1), f(p0)), A::minus(w(p1), w(p0)));
        }
    }
}

/// The sum of `f w` with coordinate `k` bound to `x`, from the sums at 0 and 1 and
/// the leading coefficient.
proof fn lemma_bound_sum<A: Algebra>(
    f: spec_fn(Seq<A::E>) -> A::E,
    w: spec_fn(Seq<A::E>) -> A::E,
    s: Seq<A::E>,
    n: nat,
    k: int,
    x: A::E,
)
    requires
        polynomial::<A>(f, s.len() + n),
        polynomial::<A>(w, s.len() + n),
        point::<A>(s),
        0 <= k < s.len(),
        A::has(x),
    ensures
        quadratic::<A>(
            cube_sum::<A>(product::<A>(f, w), s.update(k, A::zero()), n),
            cube_sum::<A>(product::<A>(f, w), s.update(k, A::one()), n),
            cube_sum::<A>(leading::<A>(f, w, k), s, n),
            x,
        ) == cube_sum::<A>(product::<A>(f, w), s.update(k, x), n),
    decreases n,
{
    A::constants();
    let g = product::<A>(f, w);
    let h = leading::<A>(f, w, k);
    let (z, o) = (A::zero(), A::one());
    lemma_point_update::<A>(s, k, z);
    lemma_point_update::<A>(s, k, o);
    lemma_point_update::<A>(s, k, x);
    if n == 0 {
        assert(affine_at::<A>(f, s, k, x));
        assert(affine_at::<A>(w, s, k, x));
        let (p0, p1) = (s.update(k, z), s.update(k, o));
        assert(A::has(f(p0)) && A::has(f(p1)) && A::has(w(p0)) && A::has(w(p1)));
        lemma_product::<A>(f(p0), f(p1), w(p0), w(p1), x);
    } else {
        let m = (n - 1) as nat;
        lemma_product_total::<A>(f, w, s.len() + n);
        assert(total::<A>(h, s.len() + n));
        assert forall|b: A::E| (b == z || b == o) implies {
            let t = #[trigger] s.push(b);
            &&& point::<A>(t)
            &&& t.update(k, z) == s.update(k, z).push(b)
            &&& t.update(k, o) == s.update(k, o).push(b)
            &&& t.update(k, x) == s.update(k, x).push(b)
        } by {
            lemma_point_push::<A>(s, b);
            let t = s.push(b);
            assert(t.update(k, z) =~= s.update(k, z).push(b));
            assert(t.update(k, o) =~= s.update(k, o).push(b));
            assert(t.update(k, x) =~= s.update(k, x).push(b));
        }
        let (tz, to) = (s.push(z), s.push(o));
        lemma_bound_sum::<A>(f, w, tz, m, k, x);
        lemma_bound_sum::<A>(f, w, to, m, k, x);
        lemma_point_update::<A>(tz, k, z);
        lemma_point_update::<A>(tz, k, o);
        lemma_point_update::<A>(to, k, z);
        lemma_point_update::<A>(to, k, o);
        lemma_cube_has::<A>(g, tz.update(k, z), m);
        lemma_cube_has::<A>(g, tz.update(k, o), m);
        lemma_cube_has::<A>(g, to.update(k, z), m);
        lemma_cube_has::<A>(g, to.update(k, o), m);
        lemma_cube_has::<A>(h, tz, m);
        lemma_cube_has::<A>(h, to, m);
        lemma_quadratic_sum::<A>(
            cube_sum::<A>(g, tz.update(k, z), m),
            cube_sum::<A>(g, tz.update(k, o), m),
            cube_sum::<A>(h, tz, m),
            cube_sum::<A>(g, to.update(k, z), m),
            cube_sum::<A>(g, to.update(k, o), m),
            cube_sum::<A>(h, to, m),
            x,
        );
    }
}

// ---------------------------------------------------------------------------
// The sumcheck.
// ---------------------------------------------------------------------------

/// A round's message, its value at 0 and its leading coefficient, is that of the
/// sum of `f w` as a function of the coordinate after `s`, `n` more following.
pub open spec fn truthful<A: Algebra>(
    f: spec_fn(Seq<A::E>) -> A::E,
    w: spec_fn(Seq<A::E>) -> A::E,
    s: Seq<A::E>,
    n: nat,
    message: (A::E, A::E),
) -> bool {
    &&& message.0 == cube_sum::<A>(product::<A>(f, w), s.push(A::zero()), n)
    &&& message.1 == cube_sum::<A>(leading::<A>(f, w, s.len() as int), s.push(A::zero()), n)
}

/// The claim after a round: the value at 1 is the claim less the value at 0.
pub open spec fn next_claim<A: Algebra>(claim: A::E, message: (A::E, A::E), x: A::E) -> A::E {
    quadratic::<A>(message.0, A::minus(claim, message.0), message.1, x)
}

/// A true claim on a sum over the hypercube and a true message give a true claim
/// on the sum with one more variable bound.
pub proof fn law_sumcheck_round<A: Algebra>(
    f: spec_fn(Seq<A::E>) -> A::E,
    w: spec_fn(Seq<A::E>) -> A::E,
    s: Seq<A::E>,
    n: nat,
    message: (A::E, A::E),
    x: A::E,
)
    requires
        polynomial::<A>(f, s.len() + n + 1),
        polynomial::<A>(w, s.len() + n + 1),
        point::<A>(s),
        A::has(x),
        truthful::<A>(f, w, s, n, message),
    ensures
        next_claim::<A>(cube_sum::<A>(product::<A>(f, w), s, n + 1), message, x) == cube_sum::<A>(
            product::<A>(f, w),
            s.push(x),
            n,
        ),
{
    A::constants();
    let g = product::<A>(f, w);
    let k = s.len() as int;
    let t = s.push(A::zero());
    lemma_point_push::<A>(s, A::zero());
    lemma_point_push::<A>(s, A::one());
    lemma_product_total::<A>(f, w, s.len() + n + 1);
    lemma_cube_has::<A>(g, t, n);
    lemma_cube_has::<A>(g, s.push(A::one()), n);
    let (c0, c1) = (cube_sum::<A>(g, t, n), cube_sum::<A>(g, s.push(A::one()), n));
    lemma_minus::<A>(c0, c1, c0, c0);
    assert(t.update(k, A::zero()) =~= t);
    assert(t.update(k, A::one()) =~= s.push(A::one()));
    assert(t.update(k, x) =~= s.push(x));
    lemma_bound_sum::<A>(f, w, t, n, k, x);
}

/// The claim after the first `k` rounds.
pub open spec fn claim_through<A: Algebra>(
    claim: A::E,
    messages: Seq<(A::E, A::E)>,
    rs: Seq<A::E>,
    k: nat,
) -> A::E
    decreases k,
{
    if k == 0 {
        claim
    } else {
        next_claim::<A>(
            claim_through::<A>(claim, messages, rs, (k - 1) as nat),
            messages[k - 1],
            rs[k - 1],
        )
    }
}

/// Every message is the true one under the challenges before it; `n` variables in
/// all.
pub open spec fn all_truthful<A: Algebra>(
    f: spec_fn(Seq<A::E>) -> A::E,
    w: spec_fn(Seq<A::E>) -> A::E,
    s: Seq<A::E>,
    n: nat,
    messages: Seq<(A::E, A::E)>,
    rs: Seq<A::E>,
) -> bool {
    forall|k: int|
        0 <= k < messages.len() ==> truthful::<A>(
            f,
            w,
            s + rs.take(k),
            (n - s.len() - k - 1) as nat,
            #[trigger] messages[k],
        )
}

/// A true claim stays true through a sumcheck with true messages.
pub proof fn law_sumcheck<A: Algebra>(
    f: spec_fn(Seq<A::E>) -> A::E,
    w: spec_fn(Seq<A::E>) -> A::E,
    s: Seq<A::E>,
    n: nat,
    messages: Seq<(A::E, A::E)>,
    rs: Seq<A::E>,
    k: nat,
)
    requires
        polynomial::<A>(f, n),
        polynomial::<A>(w, n),
        point::<A>(s),
        point::<A>(rs),
        messages.len() == rs.len(),
        k <= rs.len(),
        s.len() + rs.len() <= n,
        all_truthful::<A>(f, w, s, n, messages, rs),
    ensures
        claim_through::<A>(
            cube_sum::<A>(product::<A>(f, w), s, (n - s.len()) as nat),
            messages,
            rs,
            k,
        ) == cube_sum::<A>(product::<A>(f, w), s + rs.take(k as int), (n - s.len() - k) as nat),
    decreases k,
{
    if k == 0 {
        assert(s + rs.take(0) =~= s);
    } else {
        let j = k - 1;
        law_sumcheck::<A>(f, w, s, n, messages, rs, j as nat);
        let t = s + rs.take(j);
        assert(point::<A>(rs.take(j))) by {
            assert forall|i: int| 0 <= i < j implies A::has(#[trigger] rs.take(j)[i]) by {
                assert(A::has(rs[i]));
            }
        }
        lemma_point_join::<A>(s, rs.take(j));
        assert(A::has(rs[j]));
        assert(truthful::<A>(f, w, t, (n - s.len() - k) as nat, messages[j]));
        law_sumcheck_round::<A>(f, w, t, (n - s.len() - k) as nat, messages[j], rs[j]);
        assert(t.push(rs[j]) =~= s + rs.take(k as int));
    }
}

// ---------------------------------------------------------------------------
// Weights.
// ---------------------------------------------------------------------------

/// The weight of one coordinate: the affine function that is `1 - z` at 0 and `z`
/// at 1, or, for a power, 1 at 0 and `z` at 1.
pub open spec fn factor<A: Algebra>(powers: bool, z: A::E, r: A::E) -> A::E {
    lerp::<A>(
        if powers {
            A::one()
        } else {
            A::minus(A::one(), z)
        },
        z,
        r,
    )
}

/// The product of the weights of matching coordinates.
pub open spec fn kernel<A: Algebra>(powers: bool, z: Seq<A::E>, r: Seq<A::E>) -> A::E
    decreases z.len(),
{
    if z.len() == 0 {
        A::one()
    } else {
        A::times(factor::<A>(powers, z[0], r[0]), kernel::<A>(powers, z.skip(1), r.skip(1)))
    }
}

/// The weight of `z` at the last coordinates of `p`.
pub open spec fn weight_at<A: Algebra>(powers: bool, z: Seq<A::E>, p: Seq<A::E>) -> A::E {
    kernel::<A>(powers, z, p.skip(p.len() - z.len()))
}

/// `sum f(s + b) prod z_i^(b_i)`: the polynomial with the coefficients
/// `f(s + b)` at `z`.
pub open spec fn coefficients_at<A: Algebra>(
    f: spec_fn(Seq<A::E>) -> A::E,
    s: Seq<A::E>,
    z: Seq<A::E>,
) -> A::E
    decreases z.len(),
{
    if z.len() == 0 {
        f(s)
    } else {
        A::plus(
            coefficients_at::<A>(f, s.push(A::zero()), z.skip(1)),
            A::times(z[0], coefficients_at::<A>(f, s.push(A::one()), z.skip(1))),
        )
    }
}

/// What a weight picks out of `f` with the coordinates `s` bound: its value at
/// `z`, or the polynomial with its values as coefficients there.
pub open spec fn picked<A: Algebra>(
    powers: bool,
    f: spec_fn(Seq<A::E>) -> A::E,
    s: Seq<A::E>,
    z: Seq<A::E>,
) -> A::E {
    if powers {
        coefficients_at::<A>(f, s, z)
    } else {
        f(s + z)
    }
}

pub proof fn lemma_factor<A: Algebra>(powers: bool, z: A::E, r: A::E)
    requires
        A::has(z),
        A::has(r),
    ensures
        A::has(factor::<A>(powers, z, r)),
        factor::<A>(powers, z, A::one()) == z,
        factor::<A>(powers, z, A::zero()) == (if powers {
            A::one()
        } else {
            A::minus(A::one(), z)
        }),
        factor::<A>(powers, z, r) == lerp::<A>(
            factor::<A>(powers, z, A::zero()),
            factor::<A>(powers, z, A::one()),
            r,
        ),
{
    A::constants();
    A::closed(A::one(), z);
    let a = if powers {
        A::one()
    } else {
        A::minus(A::one(), z)
    };
    lemma_lerp::<A>(a, z, a, a, r);
    lemma_lerp::<A>(a, z, a, a, A::zero());
    lemma_lerp::<A>(a, z, a, a, A::one());
}

proof fn lemma_point_skip<A: Algebra>(p: Seq<A::E>, k: int)
    requires
        point::<A>(p),
        0 <= k <= p.len(),
    ensures
        point::<A>(p.skip(k)),
        point::<A>(p.take(k)),
{
    assert forall|i: int| 0 <= i < p.len() - k implies A::has(#[trigger] p.skip(k)[i]) by {
        assert(p.skip(k)[i] == p[i + k]);
    }
    assert forall|i: int| 0 <= i < k implies A::has(#[trigger] p.take(k)[i]) by {
        assert(p.take(k)[i] == p[i]);
    }
}

/// A product of weights is affine in every coordinate.
proof fn lemma_kernel<A: Algebra>(powers: bool, z: Seq<A::E>, r: Seq<A::E>, k: int, x: A::E)
    requires
        point::<A>(z),
        point::<A>(r),
        z.len() == r.len(),
        A::has(x),
    ensures
        A::has(kernel::<A>(powers, z, r)),
        0 <= k < r.len() ==> kernel::<A>(powers, z, r.update(k, x)) == lerp::<A>(
            kernel::<A>(powers, z, r.update(k, A::zero())),
            kernel::<A>(powers, z, r.update(k, A::one())),
            x,
        ),
    decreases z.len(),
{
    A::constants();
    if z.len() > 0 {
        lemma_point_skip::<A>(z, 1);
        lemma_point_skip::<A>(r, 1);
        assert(A::has(z[0]) && A::has(r[0]));
        let (zs, rs) = (z.skip(1), r.skip(1));
        lemma_kernel::<A>(powers, zs, rs, k - 1, x);
        lemma_factor::<A>(powers, z[0], r[0]);
        A::closed(factor::<A>(powers, z[0], r[0]), kernel::<A>(powers, zs, rs));
        if k == 0 {
            let c = kernel::<A>(powers, zs, rs);
            lemma_factor::<A>(powers, z[0], x);
            lemma_factor::<A>(powers, z[0], A::zero());
            lemma_factor::<A>(powers, z[0], A::one());
            assert(r.update(0, x).skip(1) =~= rs);
            assert(r.update(0, A::zero()).skip(1) =~= rs);
            assert(r.update(0, A::one()).skip(1) =~= rs);
            let (a, b) = (
                factor::<A>(powers, z[0], A::zero()),
                factor::<A>(powers, z[0], A::one()),
            );
            lemma_lerp::<A>(a, b, c, c, x);
            A::products(c, a, a);
            A::products(c, b, b);
            A::products(c, lerp::<A>(a, b, x), a);
        } else if 0 < k < r.len() {
            assert(r.update(k, x).skip(1) =~= rs.update(k - 1, x));
            assert(r.update(k, A::zero()).skip(1) =~= rs.update(k - 1, A::zero()));
            assert(r.update(k, A::one()).skip(1) =~= rs.update(k - 1, A::one()));
            lemma_point_update::<A>(rs, k - 1, A::zero());
            lemma_point_update::<A>(rs, k - 1, A::one());
            lemma_kernel::<A>(powers, zs, rs.update(k - 1, A::zero()), -1, x);
            lemma_kernel::<A>(powers, zs, rs.update(k - 1, A::one()), -1, x);
            let (a, b) = (
                kernel::<A>(powers, zs, rs.update(k - 1, A::zero())),
                kernel::<A>(powers, zs, rs.update(k - 1, A::one())),
            );
            let c = factor::<A>(powers, z[0], r[0]);
            lemma_lerp::<A>(a, b, c, c, x);
        }
    }
}

/// A weight is a polynomial in all coordinates.
pub proof fn lemma_weight_polynomial<A: Algebra>(powers: bool, z: Seq<A::E>, n: nat)
    requires
        point::<A>(z),
        z.len() <= n,
    ensures
        polynomial::<A>(|p: Seq<A::E>| weight_at::<A>(powers, z, p), n),
{
    A::constants();
    let f = |p: Seq<A::E>| weight_at::<A>(powers, z, p);
    let at = n - z.len();
    assert forall|p: Seq<A::E>| point::<A>(p) && p.len() == n implies A::has(#[trigger] f(p)) by {
        lemma_point_skip::<A>(p, at);
        lemma_kernel::<A>(powers, z, p.skip(at), -1, A::zero());
    }
    assert forall|p: Seq<A::E>, k: int, x: A::E|
        point::<A>(p) && p.len() == n && 0 <= k < n && A::has(x) implies #[trigger] affine_at::<A>(
        f,
        p,
        k,
        x,
    ) by {
        lemma_point_skip::<A>(p, at);
        let r = p.skip(at);
        if k < at {
            assert(p.update(k, x).skip(at) =~= r);
            assert(p.update(k, A::zero()).skip(at) =~= r);
            assert(p.update(k, A::one()).skip(at) =~= r);
            lemma_kernel::<A>(powers, z, r, -1, A::zero());
            let a = kernel::<A>(powers, z, r);
            lemma_lerp::<A>(a, a, a, a, x);
        } else {
            assert(p.update(k, x).skip(at) =~= r.update(k - at, x));
            assert(p.update(k, A::zero()).skip(at) =~= r.update(k - at, A::zero()));
            assert(p.update(k, A::one()).skip(at) =~= r.update(k - at, A::one()));
            lemma_kernel::<A>(powers, z, r, k - at, x);
        }
    }
}

/// Sums and multiples of polynomials are polynomials.
pub proof fn lemma_polynomial_sum<A: Algebra>(
    f: spec_fn(Seq<A::E>) -> A::E,
    g: spec_fn(Seq<A::E>) -> A::E,
    h: spec_fn(Seq<A::E>) -> A::E,
    c: A::E,
    n: nat,
)
    requires
        polynomial::<A>(f, n),
        polynomial::<A>(g, n),
        A::has(c),
        forall|p: Seq<A::E>|
            point::<A>(p) && p.len() == n ==> #[trigger] h(p) == A::plus(
                f(p),
                A::times(c, g(p)),
            ),
    ensures
        polynomial::<A>(h, n),
{
    A::constants();
    assert forall|p: Seq<A::E>| point::<A>(p) && p.len() == n implies A::has(#[trigger] h(p)) by {
        assert(A::has(f(p)) && A::has(g(p)));
        A::closed(c, g(p));
        A::closed(f(p), A::times(c, g(p)));
    }
    assert forall|p: Seq<A::E>, k: int, x: A::E|
        point::<A>(p) && p.len() == n && 0 <= k < n && A::has(x) implies #[trigger] affine_at::<A>(
        h,
        p,
        k,
        x,
    ) by {
        lemma_point_update::<A>(p, k, x);
        lemma_point_update::<A>(p, k, A::zero());
        lemma_point_update::<A>(p, k, A::one());
        assert(affine_at::<A>(f, p, k, x));
        assert(affine_at::<A>(g, p, k, x));
        let (p0, p1, px) = (p.update(k, A::zero()), p.update(k, A::one()), p.update(k, x));
        assert(A::has(f(p0)) && A::has(f(p1)) && A::has(g(p0)) && A::has(g(p1)));
        assert(h(p0) == A::plus(f(p0), A::times(c, g(p0))));
        assert(h(p1) == A::plus(f(p1), A::times(c, g(p1))));
        assert(h(px) == A::plus(f(px), A::times(c, g(px))));
        A::closed(c, g(p0));
        A::closed(c, g(p1));
        lemma_lerp::<A>(g(p0), g(p1), c, c, x);
        lemma_lerp::<A>(f(p0), f(p1), A::times(c, g(p0)), A::times(c, g(p1)), x);
    }
}

/// Sums over the cube are linear.
pub proof fn lemma_cube_linear<A: Algebra>(
    f: spec_fn(Seq<A::E>) -> A::E,
    g: spec_fn(Seq<A::E>) -> A::E,
    h: spec_fn(Seq<A::E>) -> A::E,
    c: A::E,
    s: Seq<A::E>,
    n: nat,
)
    requires
        point::<A>(s),
        total::<A>(f, s.len() + n),
        total::<A>(g, s.len() + n),
        A::has(c),
        forall|p: Seq<A::E>|
            point::<A>(p) && p.len() == s.len() + n && p.take(s.len() as int) == s
                ==> #[trigger] h(p) == A::plus(f(p), A::times(c, g(p))),
    ensures
        cube_sum::<A>(h, s, n) == A::plus(
            cube_sum::<A>(f, s, n),
            A::times(c, cube_sum::<A>(g, s, n)),
        ),
    decreases n,
{
    A::constants();
    if n == 0 {
        assert(s.take(s.len() as int) =~= s);
    } else {
        let m = (n - 1) as nat;
        assert forall|b: A::E| (b == A::zero() || b == A::one()) implies cube_sum::<A>(
            h,
            #[trigger] s.push(b),
            m,
        ) == A::plus(
            cube_sum::<A>(f, s.push(b), m),
            A::times(c, cube_sum::<A>(g, s.push(b), m)),
        ) && A::has(cube_sum::<A>(f, s.push(b), m)) && A::has(
            cube_sum::<A>(g, s.push(b), m),
        ) by {
            let t = s.push(b);
            lemma_point_push::<A>(s, b);
            assert forall|p: Seq<A::E>|
                point::<A>(p) && p.len() == t.len() + m && p.take(t.len() as int)
                    == t implies #[trigger] h(p) == A::plus(f(p), A::times(c, g(p))) by {
                assert(p.take(s.len() as int) =~= p.take(t.len() as int).take(s.len() as int));
                assert(t.take(s.len() as int) =~= s);
            }
            lemma_cube_linear::<A>(f, g, h, c, t, m);
            lemma_cube_has::<A>(f, t, m);
            lemma_cube_has::<A>(g, t, m);
        }
        let (t0, t1) = (s.push(A::zero()), s.push(A::one()));
        let (f0, f1) = (cube_sum::<A>(f, t0, m), cube_sum::<A>(f, t1, m));
        let (g0, g1) = (cube_sum::<A>(g, t0, m), cube_sum::<A>(g, t1, m));
        A::closed(c, g0);
        A::closed(c, g1);
        lemma_swap::<A>(f0, A::times(c, g0), f1, A::times(c, g1));
        A::products(c, g0, g1);
    }
}

/// Only the values on the cube count.
pub proof fn lemma_cube_scaled<A: Algebra>(
    g: spec_fn(Seq<A::E>) -> A::E,
    h: spec_fn(Seq<A::E>) -> A::E,
    c: A::E,
    s: Seq<A::E>,
    n: nat,
)
    requires
        point::<A>(s),
        total::<A>(g, s.len() + n),
        A::has(c),
        forall|p: Seq<A::E>|
            point::<A>(p) && p.len() == s.len() + n && p.take(s.len() as int) == s
                ==> #[trigger] h(p) == A::times(c, g(p)),
    ensures
        cube_sum::<A>(h, s, n) == A::times(c, cube_sum::<A>(g, s, n)),
    decreases n,
{
    A::constants();
    if n == 0 {
        assert(s.take(s.len() as int) =~= s);
    } else {
        let m = (n - 1) as nat;
        assert forall|b: A::E| (b == A::zero() || b == A::one()) implies cube_sum::<A>(
            h,
            #[trigger] s.push(b),
            m,
        ) == A::times(c, cube_sum::<A>(g, s.push(b), m)) && A::has(
            cube_sum::<A>(g, s.push(b), m),
        ) by {
            let t = s.push(b);
            lemma_point_push::<A>(s, b);
            assert forall|p: Seq<A::E>|
                point::<A>(p) && p.len() == t.len() + m && p.take(t.len() as int)
                    == t implies #[trigger] h(p) == A::times(c, g(p)) by {
                assert(p.take(s.len() as int) =~= p.take(t.len() as int).take(s.len() as int));
                assert(t.take(s.len() as int) =~= s);
            }
            lemma_cube_scaled::<A>(g, h, c, t, m);
            lemma_cube_has::<A>(g, t, m);
        }
        let (t0, t1) = (s.push(A::zero()), s.push(A::one()));
        A::products(c, cube_sum::<A>(g, t0, m), cube_sum::<A>(g, t1, m));
    }
}

/// The sum of a polynomial under a weight is what the weight picks: its value at
/// the weight's point, or the polynomial with its values as coefficients there.
pub proof fn law_weight_picks<A: Algebra>(
    powers: bool,
    f: spec_fn(Seq<A::E>) -> A::E,
    s: Seq<A::E>,
    z: Seq<A::E>,
)
    requires
        polynomial::<A>(f, s.len() + z.len()),
        point::<A>(s),
        point::<A>(z),
    ensures
        A::has(picked::<A>(powers, f, s, z)),
        cube_sum::<A>(
            product::<A>(f, |p: Seq<A::E>| weight_at::<A>(powers, z, p)),
            s,
            z.len(),
        ) == picked::<A>(powers, f, s, z),
    decreases z.len(),
{
    A::constants();
    let n = s.len() + z.len();
    let w = |p: Seq<A::E>| weight_at::<A>(powers, z, p);
    let g = product::<A>(f, w);
    if z.len() == 0 {
        assert(s + z =~= s);
        assert(A::has(f(s)));
        A::products(f(s), A::one(), A::one());
    } else {
        let zs = z.skip(1);
        let v = |p: Seq<A::E>| weight_at::<A>(powers, zs, p);
        let h = product::<A>(f, v);
        lemma_point_skip::<A>(z, 1);
        assert(A::has(z[0]));
        let m = (z.len() - 1) as nat;
        lemma_weight_polynomial::<A>(powers, zs, n);
        lemma_product_total::<A>(f, v, n);
        assert forall|b: A::E| (b == A::zero() || b == A::one()) implies cube_sum::<A>(
            g,
            #[trigger] s.push(b),
            m,
        ) == A::times(factor::<A>(powers, z[0], b), picked::<A>(powers, f, s.push(b), zs))
            && A::has(picked::<A>(powers, f, s.push(b), zs)) by {
            let t = s.push(b);
            lemma_point_push::<A>(s, b);
            lemma_factor::<A>(powers, z[0], b);
            let c = factor::<A>(powers, z[0], b);
            law_weight_picks::<A>(powers, f, t, zs);
            assert forall|p: Seq<A::E>|
                point::<A>(p) && p.len() == t.len() + m && p.take(t.len() as int)
                    == t implies #[trigger] g(p) == A::times(c, h(p)) by {
                let k = s.len() as int;
                let r = p.skip(k);
                assert(p.take(t.len() as int)[k] == b);
                assert(r[0] == b);
                assert(r.skip(1) =~= p.skip(k + 1));
                assert(p.skip(n - z.len()) =~= r);
                assert(p.skip(n - zs.len()) =~= r.skip(1));
                assert(w(p) == A::times(c, v(p)));
                assert(A::has(f(p)) && A::has(v(p)));
                A::products(f(p), c, v(p));
                A::products(c, f(p), v(p));
            }
            lemma_cube_scaled::<A>(h, g, c, t, m);
        }
        let (t0, t1) = (s.push(A::zero()), s.push(A::one()));
        lemma_factor::<A>(powers, z[0], A::zero());
        let (a, b) = (picked::<A>(powers, f, t0, zs), picked::<A>(powers, f, t1, zs));
        assert(cube_sum::<A>(g, t0, m) == A::times(factor::<A>(powers, z[0], A::zero()), a));
        assert(cube_sum::<A>(g, t1, m) == A::times(factor::<A>(powers, z[0], A::one()), b));
        A::closed(z[0], b);
        A::closed(a, A::times(z[0], b));
        if powers {
            lemma_zero::<A>(a);
        } else {
            lemma_blend::<A>(a, b, z[0]);
            lemma_point_join::<A>(s, z);
            let p = s + z;
            let k = s.len() as int;
            assert(affine_at::<A>(f, p, k, z[0]));
            assert(p.update(k, z[0]) =~= p);
            assert(p.update(k, A::zero()) =~= t0 + zs);
            assert(p.update(k, A::one()) =~= t1 + zs);
            assert(A::has(f(p)));
        }
    }
}

// ---------------------------------------------------------------------------
// Batches.
// ---------------------------------------------------------------------------

/// A weight with its coefficient.
#[verifier::reject_recursive_types(E)]
pub struct Term<E> {
    pub coefficient: E,
    pub powers: bool,
    pub at: Seq<E>,
}

/// The terms weigh `n` variables.
pub open spec fn terms_ok<A: Algebra>(terms: Seq<Term<A::E>>, n: nat) -> bool {
    forall|i: int|
        0 <= i < terms.len() ==> {
            &&& A::has((#[trigger] terms[i]).coefficient)
            &&& point::<A>(terms[i].at)
            &&& terms[i].at.len() == n
        }
}

/// A weight with those of the terms on top.
pub open spec fn weighed<A: Algebra>(base: A::E, terms: Seq<Term<A::E>>, p: Seq<A::E>) -> A::E
    decreases terms.len(),
{
    if terms.len() == 0 {
        base
    } else {
        let t = terms.last();
        A::plus(
            weighed::<A>(base, terms.drop_last(), p),
            A::times(t.coefficient, weight_at::<A>(t.powers, t.at, p)),
        )
    }
}

/// A claim with what the terms pick out of `f` on top, the coordinates `s` bound.
pub open spec fn gained<A: Algebra>(
    base: A::E,
    terms: Seq<Term<A::E>>,
    f: spec_fn(Seq<A::E>) -> A::E,
    s: Seq<A::E>,
) -> A::E
    decreases terms.len(),
{
    if terms.len() == 0 {
        base
    } else {
        let t = terms.last();
        A::plus(
            gained::<A>(base, terms.drop_last(), f, s),
            A::times(t.coefficient, picked::<A>(t.powers, f, s, t.at)),
        )
    }
}

/// The claim and the weight stay in step: batching what the terms pick into a true
/// claim, and the terms into its weight, gives a true claim again.
pub proof fn law_batch<A: Algebra>(
    f: spec_fn(Seq<A::E>) -> A::E,
    w: spec_fn(Seq<A::E>) -> A::E,
    v: spec_fn(Seq<A::E>) -> A::E,
    s: Seq<A::E>,
    n: nat,
    terms: Seq<Term<A::E>>,
)
    requires
        s.len() <= n,
        polynomial::<A>(f, n),
        polynomial::<A>(w, n),
        point::<A>(s),
        terms_ok::<A>(terms, (n - s.len()) as nat),
        forall|p: Seq<A::E>|
            point::<A>(p) && p.len() == n ==> #[trigger] v(p) == weighed::<A>(w(p), terms, p),
    ensures
        polynomial::<A>(v, n),
        cube_sum::<A>(product::<A>(f, v), s, (n - s.len()) as nat) == gained::<A>(
            cube_sum::<A>(product::<A>(f, w), s, (n - s.len()) as nat),
            terms,
            f,
            s,
        ),
    decreases terms.len(),
{
    A::constants();
    let m = (n - s.len()) as nat;
    if terms.len() == 0 {
        assert forall|p: Seq<A::E>| point::<A>(p) && p.len() == n implies #[trigger] v(p)
            == A::plus(w(p), A::times(A::zero(), w(p))) by {
            assert(A::has(w(p)));
            lemma_zero::<A>(w(p));
            A::sums(w(p), w(p), w(p));
        }
        lemma_polynomial_sum::<A>(w, w, v, A::zero(), n);
        let (g, h) = (product::<A>(f, w), product::<A>(f, v));
        lemma_product_total::<A>(f, w, n);
        assert forall|p: Seq<A::E>|
            point::<A>(p) && p.len() == s.len() + m && p.take(s.len() as int)
                == s implies #[trigger] h(p) == A::times(A::one(), g(p)) by {
            assert(A::has(g(p)));
            lemma_zero::<A>(g(p));
            assert(v(p) == w(p));
        }
        lemma_cube_scaled::<A>(g, h, A::one(), s, m);
        lemma_cube_has::<A>(g, s, m);
        lemma_zero::<A>(cube_sum::<A>(g, s, m));
    } else {
        let front = terms.drop_last();
        let t = terms.last();
        let u = |p: Seq<A::E>| weighed::<A>(w(p), front, p);
        assert(terms_ok::<A>(front, m)) by {
            assert forall|i: int| 0 <= i < front.len() implies {
                &&& A::has((#[trigger] front[i]).coefficient)
                &&& point::<A>(front[i].at)
                &&& front[i].at.len() == m
            } by {
                assert(front[i] == terms[i]);
            }
        }
        law_batch::<A>(f, w, u, s, n, front);
        assert(A::has(terms[terms.len() - 1].coefficient));
        let x = |p: Seq<A::E>| weight_at::<A>(t.powers, t.at, p);
        lemma_weight_polynomial::<A>(t.powers, t.at, n);
        let c = t.coefficient;
        assert forall|p: Seq<A::E>| point::<A>(p) && p.len() == n implies #[trigger] v(p)
            == A::plus(u(p), A::times(c, x(p))) by {}
        lemma_polynomial_sum::<A>(u, x, v, c, n);
        let (gu, gx, gv) = (product::<A>(f, u), product::<A>(f, x), product::<A>(f, v));
        lemma_product_total::<A>(f, u, n);
        lemma_product_total::<A>(f, x, n);
        assert forall|p: Seq<A::E>|
            point::<A>(p) && p.len() == s.len() + m && p.take(s.len() as int)
                == s implies #[trigger] gv(p) == A::plus(gu(p), A::times(c, gx(p))) by {
            assert(v(p) == A::plus(u(p), A::times(c, x(p))));
            assert(A::has(f(p)) && A::has(u(p)) && A::has(x(p)));
            A::closed(c, x(p));
            A::products(f(p), u(p), A::times(c, x(p)));
            A::products(f(p), c, x(p));
            A::products(c, f(p), x(p));
        }
        lemma_cube_linear::<A>(gu, gx, gv, c, s, m);
        law_weight_picks::<A>(t.powers, f, s, t.at);
    }
}

/// A claim with no weight is a claim on zero.
pub proof fn lemma_no_weight<A: Algebra>(f: spec_fn(Seq<A::E>) -> A::E, s: Seq<A::E>, n: nat)
    requires
        polynomial::<A>(f, s.len() + n),
        point::<A>(s),
    ensures
        polynomial::<A>(|p: Seq<A::E>| A::zero(), s.len() + n),
        cube_sum::<A>(product::<A>(f, |p: Seq<A::E>| A::zero()), s, n) == A::zero(),
{
    A::constants();
    let w = |p: Seq<A::E>| A::zero();
    assert forall|p: Seq<A::E>, k: int, x: A::E|
        point::<A>(p) && p.len() == s.len() + n && 0 <= k < s.len() + n && A::has(
            x,
        ) implies #[trigger] affine_at::<A>(w, p, k, x) by {
        lemma_lerp::<A>(A::zero(), A::zero(), A::zero(), A::zero(), x);
    }
    let g = product::<A>(f, w);
    lemma_product_total::<A>(f, w, s.len() + n);
    assert forall|p: Seq<A::E>|
        point::<A>(p) && p.len() == s.len() + n && p.take(s.len() as int) == s implies #[trigger] g(
        p,
    ) == A::times(A::zero(), g(p)) by {
        assert(A::has(f(p)));
        lemma_zero::<A>(f(p));
        lemma_zero::<A>(g(p));
    }
    lemma_cube_scaled::<A>(g, g, A::zero(), s, n);
    lemma_cube_has::<A>(g, s, n);
    lemma_zero::<A>(cube_sum::<A>(g, s, n));
}

/// A polynomial with its last coordinate fixed.
proof fn lemma_push_polynomial<A: Algebra>(g: spec_fn(Seq<A::E>) -> A::E, b: A::E, n: nat)
    requires
        polynomial::<A>(g, n + 1),
        A::has(b),
    ensures
        polynomial::<A>(|q: Seq<A::E>| g(q.push(b)), n),
{
    A::constants();
    let gb = |q: Seq<A::E>| g(q.push(b));
    assert forall|p: Seq<A::E>| point::<A>(p) && p.len() == n implies A::has(#[trigger] gb(p)) by {
        lemma_point_push::<A>(p, b);
        assert(A::has(g(p.push(b))));
    }
    assert forall|p: Seq<A::E>, k: int, x: A::E|
        point::<A>(p) && p.len() == n && 0 <= k < n && A::has(x) implies #[trigger] affine_at::<A>(
        gb,
        p,
        k,
        x,
    ) by {
        lemma_point_push::<A>(p, b);
        assert(affine_at::<A>(g, p.push(b), k, x));
        assert(p.push(b).update(k, x) =~= p.update(k, x).push(b));
        assert(p.push(b).update(k, A::zero()) =~= p.update(k, A::zero()).push(b));
        assert(p.push(b).update(k, A::one()) =~= p.update(k, A::one()).push(b));
    }
}

/// The coefficients' polynomial is affine in the coordinates bound before it.
pub proof fn lemma_coefficients_polynomial<A: Algebra>(
    f: spec_fn(Seq<A::E>) -> A::E,
    z: Seq<A::E>,
    n: nat,
)
    requires
        polynomial::<A>(f, n + z.len()),
        point::<A>(z),
    ensures
        polynomial::<A>(|q: Seq<A::E>| coefficients_at::<A>(f, q, z), n),
    decreases z.len(),
{
    A::constants();
    let h = |q: Seq<A::E>| coefficients_at::<A>(f, q, z);
    if z.len() == 0 {
        assert forall|p: Seq<A::E>, k: int, x: A::E|
            point::<A>(p) && p.len() == n && 0 <= k < n && A::has(
                x,
            ) implies #[trigger] affine_at::<A>(h, p, k, x) by {
            assert(affine_at::<A>(f, p, k, x));
        }
        assert forall|p: Seq<A::E>| point::<A>(p) && p.len() == n implies A::has(
            #[trigger] h(p),
        ) by {
            assert(A::has(f(p)));
        }
    } else {
        let zs = z.skip(1);
        lemma_point_skip::<A>(z, 1);
        assert(A::has(z[0]));
        lemma_coefficients_polynomial::<A>(f, zs, n + 1);
        let g = |q: Seq<A::E>| coefficients_at::<A>(f, q, zs);
        let g0 = |q: Seq<A::E>| g(q.push(A::zero()));
        let g1 = |q: Seq<A::E>| g(q.push(A::one()));
        lemma_push_polynomial::<A>(g, A::zero(), n);
        lemma_push_polynomial::<A>(g, A::one(), n);
        lemma_polynomial_sum::<A>(g0, g1, h, z[0], n);
    }
}

// ---------------------------------------------------------------------------
// Tables.
// ---------------------------------------------------------------------------

/// The Boolean point of table entry `i`, the first coordinate least significant.
pub open spec fn low_first<A: Algebra>(i: nat, n: nat) -> Seq<A::E>
    decreases n,
{
    if n == 0 {
        Seq::empty()
    } else {
        seq![bit::<A>(i % 2 == 1)] + low_first::<A>(i / 2, (n - 1) as nat)
    }
}

/// The Boolean point of table entry `i`, the first coordinate most significant.
pub open spec fn high_first<A: Algebra>(i: nat, n: nat) -> Seq<A::E>
    decreases n,
{
    if n == 0 {
        Seq::empty()
    } else {
        high_first::<A>(i / 2, (n - 1) as nat).push(bit::<A>(i % 2 == 1))
    }
}

/// A table with the variable of adjacent entries bound.
pub open spec fn paired<A: Algebra>(table: Seq<A::E>, x: A::E) -> Seq<A::E> {
    Seq::new(table.len() / 2, |j: int| lerp::<A>(table[2 * j], table[2 * j + 1], x))
}

/// The polynomial with the values `table` at `r`, the first coordinate the one
/// that pairs adjacent entries.
pub open spec fn table_low<A: Algebra>(table: Seq<A::E>, r: Seq<A::E>) -> A::E
    decreases r.len(),
{
    if r.len() == 0 {
        table[0]
    } else {
        table_low::<A>(paired::<A>(table, r[0]), r.skip(1))
    }
}

/// The polynomial with the values `table` at `r`, the last coordinate the one
/// that pairs adjacent entries.
pub open spec fn table_high<A: Algebra>(table: Seq<A::E>, r: Seq<A::E>) -> A::E
    decreases r.len(),
{
    if r.len() == 0 {
        table[0]
    } else {
        table_high::<A>(paired::<A>(table, r.last()), r.drop_last())
    }
}

/// The polynomial with the coefficients `table` at `z`, the first coordinate the
/// one that pairs adjacent entries.
pub open spec fn table_coefficients<A: Algebra>(table: Seq<A::E>, z: Seq<A::E>) -> A::E
    decreases z.len(),
{
    if z.len() == 0 {
        table[0]
    } else {
        table_coefficients::<A>(
            Seq::new(
                table.len() / 2,
                |j: int| A::plus(table[2 * j], A::times(table[2 * j + 1], z[0])),
            ),
            z.skip(1),
        )
    }
}

pub proof fn lemma_vertex<A: Algebra>(i: nat, n: nat)
    ensures
        low_first::<A>(i, n).len() == n,
        high_first::<A>(i, n).len() == n,
        point::<A>(low_first::<A>(i, n)),
        point::<A>(high_first::<A>(i, n)),
    decreases n,
{
    A::constants();
    if n > 0 {
        lemma_vertex::<A>(i / 2, (n - 1) as nat);
        let b = bit::<A>(i % 2 == 1);
        assert(point::<A>(seq![b]));
        lemma_point_join::<A>(seq![b], low_first::<A>(i / 2, (n - 1) as nat));
        lemma_point_push::<A>(high_first::<A>(i / 2, (n - 1) as nat), b);
    }
}

/// A table of a polynomial's values at the vertices gives its value anywhere.
pub proof fn lemma_table_low<A: Algebra>(
    f: spec_fn(Seq<A::E>) -> A::E,
    table: Seq<A::E>,
    s: Seq<A::E>,
    r: Seq<A::E>,
)
    requires
        polynomial::<A>(f, s.len() + r.len()),
        point::<A>(s),
        point::<A>(r),
        table.len() == pow2(r.len()),
        forall|i: nat|
            i < pow2(r.len()) ==> table[i as int] == f(s + #[trigger] low_first::<A>(i, r.len())),
    ensures
        table_low::<A>(table, r) == f(s + r),
    decreases r.len(),
{
    A::constants();
    vstd::arithmetic::power2::lemma2_to64();
    if r.len() == 0 {
        assert(low_first::<A>(0, 0) =~= r);
    } else {
        let m = (r.len() - 1) as nat;
        let x = r[0];
        assert(A::has(r[0]));
        let half = paired::<A>(table, x);
        let t = s.push(x);
        lemma_pow2_unfold(r.len());
        lemma_point_push::<A>(s, x);
        lemma_point_skip::<A>(r, 1);
        assert forall|i: nat| i < pow2(m) implies half[i as int] == f(
            t + #[trigger] low_first::<A>(i, m),
        ) by {
            let v = low_first::<A>(i, m);
            lemma_vertex::<A>(i, m);
            assert((2 * i) / 2 == i && (2 * i + 1) / 2 == i);
            let (l0, l1) = (
                low_first::<A>((2 * i) as nat, r.len()),
                low_first::<A>((2 * i + 1) as nat, r.len()),
            );
            assert(l0 == seq![A::zero()] + v);
            assert(l1 == seq![A::one()] + v);
            assert(table[2 * (i as int)] == f(s + l0));
            assert(table[2 * (i as int) + 1] == f(s + l1));
            let p = t + v;
            lemma_point_join::<A>(t, v);
            let k = s.len() as int;
            assert(affine_at::<A>(f, p, k, x));
            assert(p.update(k, x) =~= p);
            assert(p.update(k, A::zero()) =~= s + l0);
            assert(p.update(k, A::one()) =~= s + l1);
        }
        lemma_table_low::<A>(f, half, t, r.skip(1));
        assert(t + r.skip(1) =~= s + r);
    }
}

/// The same with the last coordinate least significant, more coordinates `u`
/// following.
pub proof fn lemma_table_high<A: Algebra>(
    f: spec_fn(Seq<A::E>) -> A::E,
    table: Seq<A::E>,
    s: Seq<A::E>,
    r: Seq<A::E>,
    u: Seq<A::E>,
)
    requires
        polynomial::<A>(f, s.len() + r.len() + u.len()),
        point::<A>(s),
        point::<A>(r),
        point::<A>(u),
        table.len() == pow2(r.len()),
        forall|i: nat|
            i < pow2(r.len()) ==> table[i as int] == f(
                s + #[trigger] high_first::<A>(i, r.len()) + u,
            ),
    ensures
        table_high::<A>(table, r) == f(s + r + u),
    decreases r.len(),
{
    A::constants();
    vstd::arithmetic::power2::lemma2_to64();
    if r.len() == 0 {
        assert(high_first::<A>(0, 0) =~= r);
    } else {
        let m = (r.len() - 1) as nat;
        let x = r.last();
        assert(A::has(r[r.len() - 1]));
        let half = paired::<A>(table, x);
        let t = seq![x] + u;
        lemma_pow2_unfold(r.len());
        assert(point::<A>(seq![x]));
        lemma_point_join::<A>(seq![x], u);
        lemma_point_skip::<A>(r, m as int);
        assert(r.drop_last() =~= r.take(m as int));
        assert forall|i: nat| i < pow2(m) implies half[i as int] == f(
            s + #[trigger] high_first::<A>(i, m) + t,
        ) by {
            let v = high_first::<A>(i, m);
            lemma_vertex::<A>(i, m);
            assert((2 * i) / 2 == i && (2 * i + 1) / 2 == i);
            let (l0, l1) = (
                high_first::<A>((2 * i) as nat, r.len()),
                high_first::<A>((2 * i + 1) as nat, r.len()),
            );
            assert(l0 == v.push(A::zero()));
            assert(l1 == v.push(A::one()));
            assert(table[2 * (i as int)] == f(s + l0 + u));
            assert(table[2 * (i as int) + 1] == f(s + l1 + u));
            let p = s + v + t;
            lemma_point_join::<A>(s, v);
            lemma_point_join::<A>(s + v, t);
            let k = (s.len() + m) as int;
            assert(affine_at::<A>(f, p, k, x));
            assert(p.update(k, x) =~= p);
            assert(p.update(k, A::zero()) =~= s + l0 + u);
            assert(p.update(k, A::one()) =~= s + l1 + u);
        }
        lemma_table_high::<A>(f, half, s, r.drop_last(), t);
        assert(s + r.drop_last() + t =~= s + r + u);
    }
}

/// A table of a polynomial's values at the vertices, read as coefficients.
pub proof fn lemma_table_coefficients<A: Algebra>(
    f: spec_fn(Seq<A::E>) -> A::E,
    table: Seq<A::E>,
    s: Seq<A::E>,
    z: Seq<A::E>,
)
    requires
        polynomial::<A>(f, s.len() + z.len()),
        point::<A>(s),
        point::<A>(z),
        table.len() == pow2(z.len()),
        forall|i: nat|
            i < pow2(z.len()) ==> table[i as int] == f(s + #[trigger] low_first::<A>(i, z.len())),
    ensures
        table_coefficients::<A>(table, z) == coefficients_at::<A>(f, s, z),
    decreases z.len(),
{
    vstd::arithmetic::power2::lemma2_to64();
    A::constants();
    if z.len() == 0 {
        assert(s + low_first::<A>(0, 0) =~= s);
    } else {
        let m = (z.len() - 1) as nat;
        let c = z[0];
        assert(A::has(z[0]));
        lemma_pow2_unfold(z.len());
        lemma_point_skip::<A>(z, 1);
        let zs = z.skip(1);
        let even = Seq::new(pow2(m), |j: int| table[2 * j]);
        let odd = Seq::new(pow2(m), |j: int| table[2 * j + 1]);
        let both = Seq::new(
            table.len() / 2,
            |j: int| A::plus(table[2 * j], A::times(table[2 * j + 1], c)),
        );
        let (s0, s1) = (s.push(A::zero()), s.push(A::one()));
        lemma_point_push::<A>(s, A::zero());
        lemma_point_push::<A>(s, A::one());
        assert forall|i: nat| i < pow2(m) implies even[i as int] == f(
            s0 + #[trigger] low_first::<A>(i, m),
        ) && odd[i as int] == f(s1 + low_first::<A>(i, m)) && A::has(even[i as int]) && A::has(
            odd[i as int],
        ) by {
            let v = low_first::<A>(i, m);
            lemma_vertex::<A>(i, m);
            assert((2 * i) / 2 == i && (2 * i + 1) / 2 == i);
            let (l0, l1) = (
                low_first::<A>((2 * i) as nat, z.len()),
                low_first::<A>((2 * i + 1) as nat, z.len()),
            );
            assert(table[2 * (i as int)] == f(s + l0));
            assert(table[2 * (i as int) + 1] == f(s + l1));
            assert(s + l0 =~= s0 + v);
            assert(s + l1 =~= s1 + v);
            lemma_point_join::<A>(s0, v);
            lemma_point_join::<A>(s1, v);
            assert(A::has(f(s0 + v)) && A::has(f(s1 + v)));
        }
        lemma_table_coefficients::<A>(f, even, s0, zs);
        lemma_table_coefficients::<A>(f, odd, s1, zs);
        assert forall|i: int| 0 <= i < pow2(m) implies A::has(#[trigger] even[i]) && A::has(
            odd[i],
        ) && both[i] == A::plus(even[i], A::times(c, odd[i])) by {
            let j = i as nat;
            assert(even[i] == f(s0 + low_first::<A>(j, m)));
            A::products(odd[i], c, c);
        }
        lemma_coefficients_linear::<A>(even, odd, both, c, zs);
    }
}

/// Reading coefficients is linear.
proof fn lemma_coefficients_linear<A: Algebra>(
    a: Seq<A::E>,
    b: Seq<A::E>,
    t: Seq<A::E>,
    c: A::E,
    z: Seq<A::E>,
)
    requires
        point::<A>(z),
        A::has(c),
        a.len() == pow2(z.len()),
        b.len() == pow2(z.len()),
        t.len() == pow2(z.len()),
        forall|i: int|
            0 <= i < pow2(z.len()) ==> A::has(#[trigger] a[i]) && A::has(b[i]) && t[i] == A::plus(
                a[i],
                A::times(c, b[i]),
            ),
    ensures
        A::has(table_coefficients::<A>(a, z)),
        A::has(table_coefficients::<A>(b, z)),
        table_coefficients::<A>(t, z) == A::plus(
            table_coefficients::<A>(a, z),
            A::times(c, table_coefficients::<A>(b, z)),
        ),
    decreases z.len(),
{
    vstd::arithmetic::power2::lemma2_to64();
    A::constants();
    if z.len() == 0 {
        assert(A::has(a[0]));
    } else {
        let m = (z.len() - 1) as nat;
        let y = z[0];
        assert(A::has(z[0]));
        lemma_pow2_unfold(z.len());
        lemma_point_skip::<A>(z, 1);
        let na = Seq::new(a.len() / 2, |j: int| A::plus(a[2 * j], A::times(a[2 * j + 1], y)));
        let nb = Seq::new(b.len() / 2, |j: int| A::plus(b[2 * j], A::times(b[2 * j + 1], y)));
        let nt = Seq::new(t.len() / 2, |j: int| A::plus(t[2 * j], A::times(t[2 * j + 1], y)));
        assert forall|i: int| 0 <= i < pow2(m) implies A::has(#[trigger] na[i]) && A::has(nb[i])
            && nt[i] == A::plus(na[i], A::times(c, nb[i])) by {
            let (a0, a1, b0, b1) = (a[2 * i], a[2 * i + 1], b[2 * i], b[2 * i + 1]);
            assert(A::has(a[2 * i]) && A::has(a[2 * i + 1]));
            A::closed(a1, y);
            A::closed(b1, y);
            A::closed(a0, A::times(a1, y));
            A::closed(b0, A::times(b1, y));
            A::closed(c, b0);
            A::closed(c, b1);
            A::closed(a1, A::times(c, b1));
            A::closed(A::times(c, b1), y);
            A::products(y, a1, A::times(c, b1));
            A::products(A::plus(a1, A::times(c, b1)), y, y);
            A::products(a1, y, y);
            A::products(A::times(c, b1), y, y);
            A::products(c, b1, y);
            A::products(c, b0, A::times(b1, y));
            lemma_swap::<A>(
                a0,
                A::times(c, b0),
                A::times(a1, y),
                A::times(A::times(c, b1), y),
            );
        }
        lemma_coefficients_linear::<A>(na, nb, nt, c, z.skip(1));
    }
}

/// The product of weights by its last coordinate.
pub proof fn lemma_kernel_last<A: Algebra>(powers: bool, z: Seq<A::E>, r: Seq<A::E>)
    requires
        point::<A>(z),
        point::<A>(r),
        z.len() == r.len(),
        z.len() > 0,
    ensures
        kernel::<A>(powers, z, r) == A::times(
            kernel::<A>(powers, z.drop_last(), r.drop_last()),
            factor::<A>(powers, z.last(), r.last()),
        ),
        A::has(kernel::<A>(powers, z.drop_last(), r.drop_last())),
        A::has(kernel::<A>(powers, z, r)),
        A::has(factor::<A>(powers, z.last(), r.last())),
    decreases z.len(),
{
    A::constants();
    let n = z.len();
    lemma_point_skip::<A>(z, n - 1);
    lemma_point_skip::<A>(r, n - 1);
    assert(z.drop_last() =~= z.take(n - 1));
    assert(r.drop_last() =~= r.take(n - 1));
    lemma_kernel::<A>(powers, z, r, -1, A::zero());
    lemma_kernel::<A>(powers, z.drop_last(), r.drop_last(), -1, A::zero());
    assert(A::has(z[n - 1]) && A::has(r[n - 1]));
    assert(A::has(z[0]) && A::has(r[0]));
    lemma_factor::<A>(powers, z.last(), r.last());
    lemma_factor::<A>(powers, z[0], r[0]);
    let first = factor::<A>(powers, z[0], r[0]);
    let last = factor::<A>(powers, z.last(), r.last());
    if n == 1 {
        lemma_zero::<A>(last);
        assert(kernel::<A>(powers, z.skip(1), r.skip(1)) == A::one());
        assert(kernel::<A>(powers, z.drop_last(), r.drop_last()) == A::one());
        A::products(last, A::one(), A::one());
    } else {
        let (zs, rs) = (z.skip(1), r.skip(1));
        lemma_point_skip::<A>(z, 1);
        lemma_point_skip::<A>(r, 1);
        lemma_kernel_last::<A>(powers, zs, rs);
        assert(zs.drop_last() =~= z.drop_last().skip(1));
        assert(rs.drop_last() =~= r.drop_last().skip(1));
        let inner = kernel::<A>(powers, zs.drop_last(), rs.drop_last());
        A::products(first, inner, last);
        assert(kernel::<A>(powers, z.drop_last(), r.drop_last()) == A::times(first, inner)) by {
            assert(z.drop_last()[0] == z[0] && r.drop_last()[0] == r[0]);
        }
        assert(kernel::<A>(powers, zs, rs) == A::times(inner, last)) by {
            assert(zs.last() == z.last() && rs.last() == r.last());
        }
    }
}

} // verus!

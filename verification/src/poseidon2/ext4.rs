//! The quartic extension `KoalaBear[X] / (X^4 - 3)`.
use super::constants::P;
use super::field;
use vstd::prelude::*;

verus! {

/// `a + b X + c X^2 + d X^3`.
pub struct Quad {
    pub a: int,
    pub b: int,
    pub c: int,
    pub d: int,
}

/// The element with coefficients `x`, constant first.
pub open spec fn quad(x: Seq<u32>) -> Quad {
    Quad { a: x[0] as int, b: x[1] as int, c: x[2] as int, d: x[3] as int }
}

/// A list of elements.
pub open spec fn quads(xs: Seq<[u32; 4]>) -> Seq<Quad> {
    Seq::new(xs.len(), |i: int| quad(xs[i]@))
}

pub open spec fn zero() -> Quad {
    Quad { a: 0, b: 0, c: 0, d: 0 }
}

pub open spec fn one() -> Quad {
    Quad { a: 1, b: 0, c: 0, d: 0 }
}

/// A base element as an extension element.
pub open spec fn lifted(x: int) -> Quad {
    Quad { a: x, b: 0, c: 0, d: 0 }
}

pub open spec fn plus(x: Quad, y: Quad) -> Quad {
    Quad {
        a: field::plus(x.a, y.a),
        b: field::plus(x.b, y.b),
        c: field::plus(x.c, y.c),
        d: field::plus(x.d, y.d),
    }
}

pub open spec fn minus(x: Quad, y: Quad) -> Quad {
    Quad {
        a: field::minus(x.a, y.a),
        b: field::minus(x.b, y.b),
        c: field::minus(x.c, y.c),
        d: field::minus(x.d, y.d),
    }
}

/// The product, `X^4` being 3.
pub open spec fn times(x: Quad, y: Quad) -> Quad {
    let p = P as int;
    Quad {
        a: (x.a * y.a + 3 * (x.b * y.d + x.c * y.c + x.d * y.b)) % p,
        b: (x.a * y.b + x.b * y.a + 3 * (x.c * y.d + x.d * y.c)) % p,
        c: (x.a * y.c + x.b * y.b + x.c * y.a + 3 * (x.d * y.d)) % p,
        d: (x.a * y.d + x.b * y.c + x.c * y.b + x.d * y.a) % p,
    }
}

/// `x^e`.
pub open spec fn power(x: Quad, e: nat) -> Quad
    decreases e,
{
    if e == 0 {
        one()
    } else {
        times(power(x, (e - 1) as nat), x)
    }
}

/// Canonical coefficients.
pub open spec fn canonical(x: Quad) -> bool {
    &&& field::canonical(x.a)
    &&& field::canonical(x.b)
    &&& field::canonical(x.c)
    &&& field::canonical(x.d)
}

// ---------------------------------------------------------------------------
// The ring laws.
// ---------------------------------------------------------------------------

pub proof fn law_canonical(x: Quad, y: Quad)
    ensures
        canonical(plus(x, y)),
        canonical(minus(x, y)),
        canonical(times(x, y)),
{
}

pub proof fn law_plus_commutes(x: Quad, y: Quad)
    ensures
        plus(x, y) == plus(y, x),
{
}

pub proof fn law_plus_associates(x: Quad, y: Quad, z: Quad)
    ensures
        plus(plus(x, y), z) == plus(x, plus(y, z)),
{
}

pub proof fn law_plus_zero(x: Quad)
    requires
        canonical(x),
    ensures
        plus(x, zero()) == x,
        plus(zero(), x) == x,
{
}

pub proof fn law_times_commutes(x: Quad, y: Quad)
    ensures
        times(x, y) == times(y, x),
{
    assert(x.a * y.a == y.a * x.a && x.a * y.b == y.b * x.a && x.a * y.c == y.c * x.a && x.a * y.d
        == y.d * x.a) by (nonlinear_arith);
    assert(x.b * y.a == y.a * x.b && x.b * y.b == y.b * x.b && x.b * y.c == y.c * x.b && x.b * y.d
        == y.d * x.b) by (nonlinear_arith);
    assert(x.c * y.a == y.a * x.c && x.c * y.b == y.b * x.c && x.c * y.c == y.c * x.c && x.c * y.d
        == y.d * x.c) by (nonlinear_arith);
    assert(x.d * y.a == y.a * x.d && x.d * y.b == y.b * x.d && x.d * y.c == y.c * x.d && x.d * y.d
        == y.d * x.d) by (nonlinear_arith);
}

pub proof fn law_times_one(x: Quad)
    requires
        canonical(x),
    ensures
        times(x, one()) == x,
        times(one(), x) == x,
{
    law_times_commutes(x, one());
}

pub proof fn law_times_zero(x: Quad)
    ensures
        times(x, zero()) == zero(),
        times(zero(), x) == zero(),
{
    law_times_commutes(x, zero());
}

/// The product without reduction.
pub open spec fn raw(x: Quad, y: Quad) -> Quad {
    Quad {
        a: x.a * y.a + 3 * (x.b * y.d + x.c * y.c + x.d * y.b),
        b: x.a * y.b + x.b * y.a + 3 * (x.c * y.d + x.d * y.c),
        c: x.a * y.c + x.b * y.b + x.c * y.a + 3 * (x.d * y.d),
        d: x.a * y.d + x.b * y.c + x.c * y.b + x.d * y.a,
    }
}

/// Coefficients reduced.
pub open spec fn reduced(x: Quad) -> Quad {
    let p = P as int;
    Quad { a: x.a % p, b: x.b % p, c: x.c % p, d: x.d % p }
}

/// A multiple of `p` in a factor does not show.
proof fn lemma_multiple(u: int, q: int, v: int)
    ensures
        (u + (P as int) * q) * v == u * v + (P as int) * (q * v),
{
    assert((u + (P as int) * q) * v == u * v + (P as int) * (q * v)) by (nonlinear_arith);
}

proof fn lemma_times_reduced(x: Quad, y: Quad)
    ensures
        times(reduced(x), y) == times(x, y),
{
    let p = P as int;
    let r = reduced(x);
    let (qa, qb, qc, qd) = (x.a / p, x.b / p, x.c / p, x.d / p);
    assert(x.a == r.a + p * qa && x.b == r.b + p * qb && x.c == r.c + p * qc && x.d == r.d + p
        * qd) by {
        vstd::arithmetic::div_mod::lemma_fundamental_div_mod(x.a, p);
        vstd::arithmetic::div_mod::lemma_fundamental_div_mod(x.b, p);
        vstd::arithmetic::div_mod::lemma_fundamental_div_mod(x.c, p);
        vstd::arithmetic::div_mod::lemma_fundamental_div_mod(x.d, p);
    }
    lemma_multiple(r.a, qa, y.a);
    lemma_multiple(r.a, qa, y.b);
    lemma_multiple(r.a, qa, y.c);
    lemma_multiple(r.a, qa, y.d);
    lemma_multiple(r.b, qb, y.a);
    lemma_multiple(r.b, qb, y.b);
    lemma_multiple(r.b, qb, y.c);
    lemma_multiple(r.b, qb, y.d);
    lemma_multiple(r.c, qc, y.a);
    lemma_multiple(r.c, qc, y.b);
    lemma_multiple(r.c, qc, y.c);
    lemma_multiple(r.c, qc, y.d);
    lemma_multiple(r.d, qd, y.a);
    lemma_multiple(r.d, qd, y.b);
    lemma_multiple(r.d, qd, y.c);
    lemma_multiple(r.d, qd, y.d);
    let u = raw(x, y);
    let v = raw(r, y);
    let ka = qa * y.a + 3 * (qb * y.d + qc * y.c + qd * y.b);
    let kb = qa * y.b + qb * y.a + 3 * (qc * y.d + qd * y.c);
    let kc = qa * y.c + qb * y.b + qc * y.a + 3 * (qd * y.d);
    let kd = qa * y.d + qb * y.c + qc * y.b + qd * y.a;
    assert(u.a == p * ka + v.a);
    assert(u.b == p * kb + v.b);
    assert(u.c == p * kc + v.c);
    assert(u.d == p * kd + v.d);
    vstd::arithmetic::div_mod::lemma_mod_multiples_vanish(ka, v.a, p);
    vstd::arithmetic::div_mod::lemma_mod_multiples_vanish(kb, v.b, p);
    vstd::arithmetic::div_mod::lemma_mod_multiples_vanish(kc, v.c, p);
    vstd::arithmetic::div_mod::lemma_mod_multiples_vanish(kd, v.d, p);
}

pub proof fn law_times_distributes(x: Quad, y: Quad, z: Quad)
    ensures
        times(plus(x, y), z) == plus(times(x, z), times(y, z)),
        times(z, plus(x, y)) == plus(times(z, x), times(z, y)),
{
    let p = P as int;
    let s = Quad { a: x.a + y.a, b: x.b + y.b, c: x.c + y.c, d: x.d + y.d };
    assert(reduced(s) == plus(x, y));
    lemma_times_reduced(s, z);
    let (u, v, w) = (raw(x, z), raw(y, z), raw(s, z));
    lemma_raw_distributes(x, y, z);
    vstd::arithmetic::div_mod::lemma_add_mod_noop(u.a, v.a, p);
    vstd::arithmetic::div_mod::lemma_add_mod_noop(u.b, v.b, p);
    vstd::arithmetic::div_mod::lemma_add_mod_noop(u.c, v.c, p);
    vstd::arithmetic::div_mod::lemma_add_mod_noop(u.d, v.d, p);
    assert(times(s, z) == reduced(w));
    assert(times(x, z) == reduced(u));
    assert(times(y, z) == reduced(v));
    law_times_commutes(plus(x, y), z);
    law_times_commutes(x, z);
    law_times_commutes(y, z);
}

proof fn lemma_raw_distributes(x: Quad, y: Quad, z: Quad)
    ensures
        ({
            let s = Quad { a: x.a + y.a, b: x.b + y.b, c: x.c + y.c, d: x.d + y.d };
            let (u, v, w) = (raw(x, z), raw(y, z), raw(s, z));
            &&& w.a == u.a + v.a
            &&& w.b == u.b + v.b
            &&& w.c == u.c + v.c
            &&& w.d == u.d + v.d
        }),
{
    lemma_split(x.a, y.a, z);
    lemma_split(x.b, y.b, z);
    lemma_split(x.c, y.c, z);
    lemma_split(x.d, y.d, z);
}

proof fn lemma_split(u: int, v: int, z: Quad)
    ensures
        (u + v) * z.a == u * z.a + v * z.a,
        (u + v) * z.b == u * z.b + v * z.b,
        (u + v) * z.c == u * z.c + v * z.c,
        (u + v) * z.d == u * z.d + v * z.d,
{
    assert((u + v) * z.a == u * z.a + v * z.a) by (nonlinear_arith);
    assert((u + v) * z.b == u * z.b + v * z.b) by (nonlinear_arith);
    assert((u + v) * z.c == u * z.c + v * z.c) by (nonlinear_arith);
    assert((u + v) * z.d == u * z.d + v * z.d) by (nonlinear_arith);
}

/// `(r + s + t + u) v` with coefficients.
proof fn lemma_spread(k: int, l: int, m: int, n: int, r: int, s: int, t: int, u: int, v: int)
    ensures
        (k * r + l * s + m * t + n * u) * v == k * (r * v) + l * (s * v) + m * (t * v) + n * (u
            * v),
        v * (k * r + l * s + m * t + n * u) == k * (v * r) + l * (v * s) + m * (v * t) + n * (v
            * u),
{
    vstd::arithmetic::mul::lemma_mul_is_distributive_add_other_way(
        v,
        k * r + l * s + m * t,
        n * u,
    );
    vstd::arithmetic::mul::lemma_mul_is_distributive_add_other_way(v, k * r + l * s, m * t);
    vstd::arithmetic::mul::lemma_mul_is_distributive_add_other_way(v, k * r, l * s);
    vstd::arithmetic::mul::lemma_mul_is_associative(k, r, v);
    vstd::arithmetic::mul::lemma_mul_is_associative(l, s, v);
    vstd::arithmetic::mul::lemma_mul_is_associative(m, t, v);
    vstd::arithmetic::mul::lemma_mul_is_associative(n, u, v);
    vstd::arithmetic::mul::lemma_mul_is_commutative(k * r + l * s + m * t + n * u, v);
    vstd::arithmetic::mul::lemma_mul_is_commutative(r, v);
    vstd::arithmetic::mul::lemma_mul_is_commutative(s, v);
    vstd::arithmetic::mul::lemma_mul_is_commutative(t, v);
    vstd::arithmetic::mul::lemma_mul_is_commutative(u, v);
}

proof fn lemma_raw_associates_a(x: Quad, y: Quad, z: Quad)
    ensures
        raw(raw(x, y), z).a == raw(x, raw(y, z)).a,
{
    lemma_spread(1, 3, 3, 3, x.a * y.a, x.b * y.d, x.c * y.c, x.d * y.b, z.a);
    lemma_spread(1, 3, 3, 3, y.a * z.a, y.b * z.d, y.c * z.c, y.d * z.b, x.a);
    lemma_spread(1, 1, 3, 3, x.a * y.b, x.b * y.a, x.c * y.d, x.d * y.c, z.d);
    lemma_spread(1, 1, 1, 1, y.a * z.d, y.b * z.c, y.c * z.b, y.d * z.a, x.b);
    lemma_spread(1, 1, 1, 3, x.a * y.c, x.b * y.b, x.c * y.a, x.d * y.d, z.c);
    lemma_spread(1, 1, 1, 3, y.a * z.c, y.b * z.b, y.c * z.a, y.d * z.d, x.c);
    lemma_spread(1, 1, 1, 1, x.a * y.d, x.b * y.c, x.c * y.b, x.d * y.a, z.b);
    lemma_spread(1, 1, 3, 3, y.a * z.b, y.b * z.a, y.c * z.d, y.d * z.c, x.d);
    vstd::arithmetic::mul::lemma_mul_is_associative(x.a, y.a, z.a);
    vstd::arithmetic::mul::lemma_mul_is_associative(x.a, y.b, z.d);
    vstd::arithmetic::mul::lemma_mul_is_associative(x.a, y.c, z.c);
    vstd::arithmetic::mul::lemma_mul_is_associative(x.a, y.d, z.b);
    vstd::arithmetic::mul::lemma_mul_is_associative(x.b, y.a, z.d);
    vstd::arithmetic::mul::lemma_mul_is_associative(x.b, y.b, z.c);
    vstd::arithmetic::mul::lemma_mul_is_associative(x.b, y.c, z.b);
    vstd::arithmetic::mul::lemma_mul_is_associative(x.b, y.d, z.a);
    vstd::arithmetic::mul::lemma_mul_is_associative(x.c, y.a, z.c);
    vstd::arithmetic::mul::lemma_mul_is_associative(x.c, y.b, z.b);
    vstd::arithmetic::mul::lemma_mul_is_associative(x.c, y.c, z.a);
    vstd::arithmetic::mul::lemma_mul_is_associative(x.c, y.d, z.d);
    vstd::arithmetic::mul::lemma_mul_is_associative(x.d, y.a, z.b);
    vstd::arithmetic::mul::lemma_mul_is_associative(x.d, y.b, z.a);
    vstd::arithmetic::mul::lemma_mul_is_associative(x.d, y.c, z.d);
    vstd::arithmetic::mul::lemma_mul_is_associative(x.d, y.d, z.c);
}

proof fn lemma_raw_associates_b(x: Quad, y: Quad, z: Quad)
    ensures
        raw(raw(x, y), z).b == raw(x, raw(y, z)).b,
{
    lemma_spread(1, 3, 3, 3, x.a * y.a, x.b * y.d, x.c * y.c, x.d * y.b, z.b);
    lemma_spread(1, 1, 3, 3, y.a * z.b, y.b * z.a, y.c * z.d, y.d * z.c, x.a);
    lemma_spread(1, 1, 3, 3, x.a * y.b, x.b * y.a, x.c * y.d, x.d * y.c, z.a);
    lemma_spread(1, 3, 3, 3, y.a * z.a, y.b * z.d, y.c * z.c, y.d * z.b, x.b);
    lemma_spread(1, 1, 1, 3, x.a * y.c, x.b * y.b, x.c * y.a, x.d * y.d, z.d);
    lemma_spread(1, 1, 1, 1, y.a * z.d, y.b * z.c, y.c * z.b, y.d * z.a, x.c);
    lemma_spread(1, 1, 1, 1, x.a * y.d, x.b * y.c, x.c * y.b, x.d * y.a, z.c);
    lemma_spread(1, 1, 1, 3, y.a * z.c, y.b * z.b, y.c * z.a, y.d * z.d, x.d);
    vstd::arithmetic::mul::lemma_mul_is_associative(x.a, y.a, z.b);
    vstd::arithmetic::mul::lemma_mul_is_associative(x.a, y.b, z.a);
    vstd::arithmetic::mul::lemma_mul_is_associative(x.a, y.c, z.d);
    vstd::arithmetic::mul::lemma_mul_is_associative(x.a, y.d, z.c);
    vstd::arithmetic::mul::lemma_mul_is_associative(x.b, y.a, z.a);
    vstd::arithmetic::mul::lemma_mul_is_associative(x.b, y.b, z.d);
    vstd::arithmetic::mul::lemma_mul_is_associative(x.b, y.c, z.c);
    vstd::arithmetic::mul::lemma_mul_is_associative(x.b, y.d, z.b);
    vstd::arithmetic::mul::lemma_mul_is_associative(x.c, y.a, z.d);
    vstd::arithmetic::mul::lemma_mul_is_associative(x.c, y.b, z.c);
    vstd::arithmetic::mul::lemma_mul_is_associative(x.c, y.c, z.b);
    vstd::arithmetic::mul::lemma_mul_is_associative(x.c, y.d, z.a);
    vstd::arithmetic::mul::lemma_mul_is_associative(x.d, y.a, z.c);
    vstd::arithmetic::mul::lemma_mul_is_associative(x.d, y.b, z.b);
    vstd::arithmetic::mul::lemma_mul_is_associative(x.d, y.c, z.a);
    vstd::arithmetic::mul::lemma_mul_is_associative(x.d, y.d, z.d);
}

proof fn lemma_raw_associates_c(x: Quad, y: Quad, z: Quad)
    ensures
        raw(raw(x, y), z).c == raw(x, raw(y, z)).c,
{
    lemma_spread(1, 3, 3, 3, x.a * y.a, x.b * y.d, x.c * y.c, x.d * y.b, z.c);
    lemma_spread(1, 1, 1, 3, y.a * z.c, y.b * z.b, y.c * z.a, y.d * z.d, x.a);
    lemma_spread(1, 1, 3, 3, x.a * y.b, x.b * y.a, x.c * y.d, x.d * y.c, z.b);
    lemma_spread(1, 1, 3, 3, y.a * z.b, y.b * z.a, y.c * z.d, y.d * z.c, x.b);
    lemma_spread(1, 1, 1, 3, x.a * y.c, x.b * y.b, x.c * y.a, x.d * y.d, z.a);
    lemma_spread(1, 3, 3, 3, y.a * z.a, y.b * z.d, y.c * z.c, y.d * z.b, x.c);
    lemma_spread(1, 1, 1, 1, x.a * y.d, x.b * y.c, x.c * y.b, x.d * y.a, z.d);
    lemma_spread(1, 1, 1, 1, y.a * z.d, y.b * z.c, y.c * z.b, y.d * z.a, x.d);
    vstd::arithmetic::mul::lemma_mul_is_associative(x.a, y.a, z.c);
    vstd::arithmetic::mul::lemma_mul_is_associative(x.a, y.b, z.b);
    vstd::arithmetic::mul::lemma_mul_is_associative(x.a, y.c, z.a);
    vstd::arithmetic::mul::lemma_mul_is_associative(x.a, y.d, z.d);
    vstd::arithmetic::mul::lemma_mul_is_associative(x.b, y.a, z.b);
    vstd::arithmetic::mul::lemma_mul_is_associative(x.b, y.b, z.a);
    vstd::arithmetic::mul::lemma_mul_is_associative(x.b, y.c, z.d);
    vstd::arithmetic::mul::lemma_mul_is_associative(x.b, y.d, z.c);
    vstd::arithmetic::mul::lemma_mul_is_associative(x.c, y.a, z.a);
    vstd::arithmetic::mul::lemma_mul_is_associative(x.c, y.b, z.d);
    vstd::arithmetic::mul::lemma_mul_is_associative(x.c, y.c, z.c);
    vstd::arithmetic::mul::lemma_mul_is_associative(x.c, y.d, z.b);
    vstd::arithmetic::mul::lemma_mul_is_associative(x.d, y.a, z.d);
    vstd::arithmetic::mul::lemma_mul_is_associative(x.d, y.b, z.c);
    vstd::arithmetic::mul::lemma_mul_is_associative(x.d, y.c, z.b);
    vstd::arithmetic::mul::lemma_mul_is_associative(x.d, y.d, z.a);
}

proof fn lemma_raw_associates_d(x: Quad, y: Quad, z: Quad)
    ensures
        raw(raw(x, y), z).d == raw(x, raw(y, z)).d,
{
    lemma_spread(1, 3, 3, 3, x.a * y.a, x.b * y.d, x.c * y.c, x.d * y.b, z.d);
    lemma_spread(1, 1, 1, 1, y.a * z.d, y.b * z.c, y.c * z.b, y.d * z.a, x.a);
    lemma_spread(1, 1, 3, 3, x.a * y.b, x.b * y.a, x.c * y.d, x.d * y.c, z.c);
    lemma_spread(1, 1, 1, 3, y.a * z.c, y.b * z.b, y.c * z.a, y.d * z.d, x.b);
    lemma_spread(1, 1, 1, 3, x.a * y.c, x.b * y.b, x.c * y.a, x.d * y.d, z.b);
    lemma_spread(1, 1, 3, 3, y.a * z.b, y.b * z.a, y.c * z.d, y.d * z.c, x.c);
    lemma_spread(1, 1, 1, 1, x.a * y.d, x.b * y.c, x.c * y.b, x.d * y.a, z.a);
    lemma_spread(1, 3, 3, 3, y.a * z.a, y.b * z.d, y.c * z.c, y.d * z.b, x.d);
    vstd::arithmetic::mul::lemma_mul_is_associative(x.a, y.a, z.d);
    vstd::arithmetic::mul::lemma_mul_is_associative(x.a, y.b, z.c);
    vstd::arithmetic::mul::lemma_mul_is_associative(x.a, y.c, z.b);
    vstd::arithmetic::mul::lemma_mul_is_associative(x.a, y.d, z.a);
    vstd::arithmetic::mul::lemma_mul_is_associative(x.b, y.a, z.c);
    vstd::arithmetic::mul::lemma_mul_is_associative(x.b, y.b, z.b);
    vstd::arithmetic::mul::lemma_mul_is_associative(x.b, y.c, z.a);
    vstd::arithmetic::mul::lemma_mul_is_associative(x.b, y.d, z.d);
    vstd::arithmetic::mul::lemma_mul_is_associative(x.c, y.a, z.b);
    vstd::arithmetic::mul::lemma_mul_is_associative(x.c, y.b, z.a);
    vstd::arithmetic::mul::lemma_mul_is_associative(x.c, y.c, z.d);
    vstd::arithmetic::mul::lemma_mul_is_associative(x.c, y.d, z.c);
    vstd::arithmetic::mul::lemma_mul_is_associative(x.d, y.a, z.a);
    vstd::arithmetic::mul::lemma_mul_is_associative(x.d, y.b, z.d);
    vstd::arithmetic::mul::lemma_mul_is_associative(x.d, y.c, z.c);
    vstd::arithmetic::mul::lemma_mul_is_associative(x.d, y.d, z.b);
}

proof fn lemma_raw_associates(x: Quad, y: Quad, z: Quad)
    ensures
        raw(raw(x, y), z) == raw(x, raw(y, z)),
{
    lemma_raw_associates_a(x, y, z);
    lemma_raw_associates_b(x, y, z);
    lemma_raw_associates_c(x, y, z);
    lemma_raw_associates_d(x, y, z);
}

pub proof fn law_times_associates(x: Quad, y: Quad, z: Quad)
    ensures
        times(times(x, y), z) == times(x, times(y, z)),
{
    lemma_times_reduced(raw(x, y), z);
    assert(reduced(raw(x, y)) == times(x, y));
    lemma_times_reduced(raw(y, z), x);
    assert(reduced(raw(y, z)) == times(y, z));
    law_times_commutes(times(y, z), x);
    law_times_commutes(raw(y, z), x);
    lemma_raw_associates(x, y, z);
    assert(times(raw(x, y), z) == reduced(raw(raw(x, y), z)));
    assert(times(x, raw(y, z)) == reduced(raw(x, raw(y, z))));
}

/// Scaling by a base element scales every coefficient.
pub proof fn law_times_lifted(x: Quad, v: int)
    ensures
        times(x, lifted(v)) == (Quad {
            a: field::times(x.a, v),
            b: field::times(x.b, v),
            c: field::times(x.c, v),
            d: field::times(x.d, v),
        }),
{
    let z = lifted(v);
    assert(x.a * z.b == 0 && x.a * z.c == 0 && x.a * z.d == 0 && x.b * z.b == 0 && x.b * z.c == 0
        && x.b * z.d == 0 && x.c * z.b == 0 && x.c * z.c == 0 && x.c * z.d == 0 && x.d * z.b == 0
        && x.d * z.c == 0 && x.d * z.d == 0);
}

// ---------------------------------------------------------------------------
// The operations.
// ---------------------------------------------------------------------------

/// `a b`, in full.
fn product(a: u32, b: u32) -> (r: u128)
    ensures
        r == a * b,
        r <= 0xffff_ffff_ffff_ffff,
{
    assert(a * b <= 0xffff_ffff * 0xffff_ffff) by (nonlinear_arith)
        requires
            a <= 0xffff_ffff,
            b <= 0xffff_ffff,
    ;
    assert(a * b >= 0) by (nonlinear_arith);
    a as u128 * b as u128
}

fn residue(x: u128) -> (r: u32)
    ensures
        r == (x as int) % (P as int),
        r < P,
{
    (x % (P as u128)) as u32
}

/// `x + y`.
pub fn add(x: [u32; 4], y: [u32; 4]) -> (r: [u32; 4])
    ensures
        quad(r@) == plus(quad(x@), quad(y@)),
        canonical(quad(r@)),
{
    [
        field::add(x[0], y[0]),
        field::add(x[1], y[1]),
        field::add(x[2], y[2]),
        field::add(x[3], y[3]),
    ]
}

/// `x - y`.
pub fn sub(x: [u32; 4], y: [u32; 4]) -> (r: [u32; 4])
    ensures
        quad(r@) == minus(quad(x@), quad(y@)),
        canonical(quad(r@)),
{
    [
        field::sub(x[0], y[0]),
        field::sub(x[1], y[1]),
        field::sub(x[2], y[2]),
        field::sub(x[3], y[3]),
    ]
}

/// `x y`.
pub fn mul(x: [u32; 4], y: [u32; 4]) -> (r: [u32; 4])
    ensures
        quad(r@) == times(quad(x@), quad(y@)),
        canonical(quad(r@)),
{
    let a = residue(
        product(x[0], y[0]) + 3 * (product(x[1], y[3]) + product(x[2], y[2]) + product(x[3], y[1])),
    );
    let b = residue(
        product(x[0], y[1]) + product(x[1], y[0]) + 3 * (product(x[2], y[3]) + product(
            x[3],
            y[2],
        )),
    );
    let c = residue(
        product(x[0], y[2]) + product(x[1], y[1]) + product(x[2], y[0]) + 3 * product(x[3], y[3]),
    );
    let d = residue(
        product(x[0], y[3]) + product(x[1], y[2]) + product(x[2], y[1]) + product(x[3], y[0]),
    );
    [a, b, c, d]
}

/// `x == y`, coefficient by coefficient.
pub fn equal(x: [u32; 4], y: [u32; 4]) -> (r: bool)
    ensures
        r == (quad(x@) == quad(y@)),
{
    x[0] == y[0] && x[1] == y[1] && x[2] == y[2] && x[3] == y[3]
}

} // verus!

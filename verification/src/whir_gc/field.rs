//! The Wiedemann tower `GF(2) < GF(4) < ... < GF(2^128)`.
//!
//! Level `k + 1` is `T_k[X] / (X^2 + aX + 1)` with `a` the generator of the
//! level below (`a = 1` at the base). An element is its bit pattern, bit 0
//! first: the low half is the coefficient of 1, the high half the coefficient
//! of `X`, and the splitting repeats down to the bits of `GF(2)`. The model
//! of an element is that sequence of bits; [`F`] is the 128-bit level.
use vstd::prelude::*;

verus! {

/// A tower element of any level, as its bits.
pub type Elt = Seq<bool>;

/// `n` is the width of a tower level: a power of two.
pub open spec fn level(n: nat) -> bool
    decreases n,
{
    n == 1 || (n >= 2 && n % 2 == 0 && level(n / 2))
}

/// The coefficient of 1.
pub open spec fn lo(x: Elt) -> Elt {
    x.take((x.len() / 2) as int)
}

/// The coefficient of `X`.
pub open spec fn hi(x: Elt) -> Elt {
    x.skip((x.len() / 2) as int)
}

/// Addition: bitwise exclusive or.
pub open spec fn plus(x: Elt, y: Elt) -> Elt {
    Seq::new(x.len(), |i: int| x[i] != y[i])
}

/// Multiplication by the level's generator:
/// `X (c0 + c1 X) = c1 + (c0 + a c1) X`, and the identity on `GF(2)`.
pub open spec fn alpha(c: Elt) -> Elt
    decreases c.len(),
{
    if c.len() <= 1 {
        c
    } else {
        hi(c) + plus(lo(c), alpha(hi(c)))
    }
}

/// Multiplication modulo `X^2 = aX + 1`.
pub open spec fn times(x: Elt, y: Elt) -> Elt
    decreases x.len(),
{
    if x.len() <= 1 {
        Seq::new(x.len(), |i: int| x[i] && y[i])
    } else {
        let z0 = times(lo(x), lo(y));
        let z2 = times(hi(x), hi(y));
        let z1 = plus(times(lo(x), hi(y)), times(hi(x), lo(y)));
        plus(z0, z2) + plus(z1, alpha(z2))
    }
}

pub open spec fn zero(n: nat) -> Elt {
    Seq::new(n, |i: int| false)
}

pub open spec fn one(n: nat) -> Elt {
    Seq::new(n, |i: int| i == 0)
}

/// `x^e`.
pub open spec fn power(x: Elt, e: nat) -> Elt
    decreases e,
{
    if e == 0 {
        one(x.len())
    } else {
        times(power(x, (e - 1) as nat), x)
    }
}

/// The multiplicative inverse of a nonzero element.
pub open spec fn inverse(x: Elt) -> Elt {
    choose|r: Elt| r.len() == x.len() && times(x, r) == one(x.len())
}

// ---------------------------------------------------------------------------
// The ring laws.
// ---------------------------------------------------------------------------

pub proof fn lemma_halves(x: Elt)
    requires
        level(x.len()),
        x.len() >= 2,
    ensures
        lo(x).len() == x.len() / 2,
        hi(x).len() == x.len() / 2,
        level(x.len() / 2),
        lo(x) + hi(x) == x,
{
    assert(lo(x) + hi(x) =~= x);
}

pub proof fn lemma_join(a: Elt, b: Elt)
    requires
        a.len() == b.len(),
    ensures
        (a + b).len() == 2 * a.len(),
        lo(a + b) == a,
        hi(a + b) == b,
{
    assert(lo(a + b) =~= a);
    assert(hi(a + b) =~= b);
}

pub proof fn lemma_plus_halves(x: Elt, y: Elt)
    requires
        x.len() == y.len(),
    ensures
        lo(plus(x, y)) == plus(lo(x), lo(y)),
        hi(plus(x, y)) == plus(hi(x), hi(y)),
{
    assert(lo(plus(x, y)) =~= plus(lo(x), lo(y)));
    assert(hi(plus(x, y)) =~= plus(hi(x), hi(y)));
}

pub proof fn lemma_alpha_len(c: Elt)
    requires
        level(c.len()),
    ensures
        alpha(c).len() == c.len(),
    decreases c.len(),
{
    if c.len() >= 2 {
        lemma_halves(c);
        lemma_alpha_len(hi(c));
    }
}

pub proof fn lemma_times_len(x: Elt, y: Elt)
    requires
        level(x.len()),
        x.len() == y.len(),
    ensures
        times(x, y).len() == x.len(),
    decreases x.len(),
{
    if x.len() >= 2 {
        lemma_halves(x);
        lemma_halves(y);
        lemma_times_len(lo(x), lo(y));
        lemma_times_len(hi(x), hi(y));
        lemma_times_len(lo(x), hi(y));
        lemma_times_len(hi(x), lo(y));
        lemma_alpha_len(times(hi(x), hi(y)));
    }
}

/// Addition is commutative.
pub proof fn law_plus_comm(x: Elt, y: Elt)
    requires
        x.len() == y.len(),
    ensures
        plus(x, y) == plus(y, x),
{
    assert(plus(x, y) =~= plus(y, x));
}

/// Addition is associative.
pub proof fn law_plus_assoc(x: Elt, y: Elt, z: Elt)
    requires
        x.len() == y.len() == z.len(),
    ensures
        plus(plus(x, y), z) == plus(x, plus(y, z)),
{
    assert(plus(plus(x, y), z) =~= plus(x, plus(y, z)));
}

/// The characteristic is two.
pub proof fn law_plus_self(x: Elt)
    ensures
        plus(x, x) == zero(x.len()),
        plus(x, zero(x.len())) == x,
{
    assert(plus(x, x) =~= zero(x.len()));
    assert(plus(x, zero(x.len())) =~= x);
}

/// Multiplication by the generator is additive.
pub proof fn law_alpha_plus(x: Elt, y: Elt)
    requires
        level(x.len()),
        x.len() == y.len(),
    ensures
        alpha(plus(x, y)) == plus(alpha(x), alpha(y)),
    decreases x.len(),
{
    if x.len() >= 2 {
        lemma_halves(x);
        lemma_halves(y);
        lemma_plus_halves(x, y);
        law_alpha_plus(hi(x), hi(y));
        lemma_alpha_len(hi(x));
        lemma_alpha_len(hi(y));
    }
    assert(alpha(plus(x, y)) =~= plus(alpha(x), alpha(y)));
}

/// Multiplication distributes over addition on the left.
pub proof fn law_distribute_left(x: Elt, y: Elt, z: Elt)
    requires
        level(x.len()),
        x.len() == y.len() == z.len(),
    ensures
        times(plus(x, y), z) == plus(times(x, z), times(y, z)),
    decreases x.len(),
{
    if x.len() >= 2 {
        lemma_halves(x);
        lemma_halves(y);
        lemma_halves(z);
        lemma_plus_halves(x, y);
        law_distribute_left(lo(x), lo(y), lo(z));
        law_distribute_left(hi(x), hi(y), hi(z));
        law_distribute_left(lo(x), lo(y), hi(z));
        law_distribute_left(hi(x), hi(y), lo(z));
        lemma_times_len(hi(x), hi(z));
        lemma_times_len(hi(y), hi(z));
        lemma_times_len(lo(x), hi(z));
        lemma_times_len(lo(y), hi(z));
        lemma_times_len(hi(x), lo(z));
        lemma_times_len(hi(y), lo(z));
        lemma_times_len(lo(x), lo(z));
        lemma_times_len(lo(y), lo(z));
        law_alpha_plus(times(hi(x), hi(z)), times(hi(y), hi(z)));
        lemma_alpha_len(times(hi(x), hi(z)));
        lemma_alpha_len(times(hi(y), hi(z)));
    }
    assert(times(plus(x, y), z) =~= plus(times(x, z), times(y, z)));
}

/// Multiplication is commutative.
pub proof fn law_times_comm(x: Elt, y: Elt)
    requires
        level(x.len()),
        x.len() == y.len(),
    ensures
        times(x, y) == times(y, x),
    decreases x.len(),
{
    if x.len() >= 2 {
        lemma_halves(x);
        lemma_halves(y);
        law_times_comm(lo(x), lo(y));
        law_times_comm(hi(x), hi(y));
        law_times_comm(lo(x), hi(y));
        law_times_comm(hi(x), lo(y));
        lemma_times_len(lo(x), hi(y));
        lemma_times_len(hi(x), lo(y));
        law_plus_comm(times(lo(x), hi(y)), times(hi(x), lo(y)));
    }
    assert(times(x, y) =~= times(y, x));
}

/// Multiplication distributes over addition on the right.
pub proof fn law_distribute_right(x: Elt, y: Elt, z: Elt)
    requires
        level(x.len()),
        x.len() == y.len() == z.len(),
    ensures
        times(x, plus(y, z)) == plus(times(x, y), times(x, z)),
{
    law_times_comm(x, plus(y, z));
    law_distribute_left(y, z, x);
    law_times_comm(y, x);
    law_times_comm(z, x);
}

/// Multiplication by the generator moves across a product.
pub proof fn law_alpha_times(x: Elt, y: Elt)
    requires
        level(x.len()),
        x.len() == y.len(),
    ensures
        alpha(times(x, y)) == times(alpha(x), y),
    decreases x.len(),
{
    if x.len() >= 2 {
        let (a, b) = (lo(x), hi(x));
        let (c, d) = (lo(y), hi(y));
        lemma_halves(x);
        lemma_halves(y);
        lemma_alpha_len(b);
        lemma_alpha_len(x);
        lemma_join(b, plus(a, alpha(b)));
        lemma_times_len(a, c);
        lemma_times_len(b, d);
        lemma_times_len(a, d);
        lemma_times_len(b, c);
        lemma_alpha_len(times(b, d));
        lemma_alpha_len(times(b, c));
        let h = plus(plus(times(a, d), times(b, c)), alpha(times(b, d)));
        lemma_join(plus(times(a, c), times(b, d)), h);
        // alpha(x) = (b, a + alpha b)
        law_distribute_left(a, alpha(b), d);
        law_distribute_left(a, alpha(b), c);
        law_alpha_times(b, d);
        law_alpha_times(b, c);
        law_alpha_plus(plus(times(a, d), times(b, c)), alpha(times(b, d)));
        law_alpha_plus(times(a, d), times(b, c));
        law_alpha_plus(times(a, d), times(alpha(b), d));
        lemma_alpha_len(alpha(times(b, d)));
        lemma_alpha_len(times(a, d));
        assert(alpha(times(x, y)) =~= times(alpha(x), y));
    }
}

/// `(xy)z = x(yz)`, half by half.
proof fn lemma_assoc_step(x: Elt, y: Elt, z: Elt)
    requires
        level(x.len()),
        x.len() == y.len() == z.len(),
        x.len() >= 2,
        forall|p: Elt, q: Elt, r: Elt|
            p.len() == x.len() / 2 && q.len() == x.len() / 2 && r.len() == x.len() / 2
                ==> #[trigger] times(times(p, q), r) == times(p, times(q, r)),
    ensures
        times(times(x, y), z) == times(x, times(y, z)),
{
    let (a, b) = (lo(x), hi(x));
    let (c, d) = (lo(y), hi(y));
    let (e, f) = (lo(z), hi(z));
    lemma_halves(x);
    lemma_halves(y);
    lemma_halves(z);
    let m = x.len() / 2;
    let ac = times(a, c);
    let bd = times(b, d);
    let ad = times(a, d);
    let bc = times(b, c);
    let ce = times(c, e);
    let df = times(d, f);
    let cf = times(c, f);
    let de = times(d, e);
    lemma_times_len(a, c);
    lemma_times_len(b, d);
    lemma_times_len(a, d);
    lemma_times_len(b, c);
    lemma_times_len(c, e);
    lemma_times_len(d, f);
    lemma_times_len(c, f);
    lemma_times_len(d, e);
    lemma_alpha_len(bd);
    lemma_alpha_len(df);
    let xy0 = plus(ac, bd);
    let xy1 = plus(plus(ad, bc), alpha(bd));
    let yz0 = plus(ce, df);
    let yz1 = plus(plus(cf, de), alpha(df));
    lemma_join(xy0, xy1);
    lemma_join(yz0, yz1);
    // (xy)z
    law_distribute_left(ac, bd, e);
    law_distribute_left(ac, bd, f);
    law_distribute_left(plus(ad, bc), alpha(bd), f);
    law_distribute_left(ad, bc, f);
    law_distribute_left(plus(ad, bc), alpha(bd), e);
    law_distribute_left(ad, bc, e);
    // x(yz)
    law_distribute_right(a, ce, df);
    law_distribute_right(b, ce, df);
    law_distribute_right(b, plus(cf, de), alpha(df));
    law_distribute_right(b, cf, de);
    law_distribute_right(a, plus(cf, de), alpha(df));
    law_distribute_right(a, cf, de);
    // alpha moves: (alpha bd) v = alpha (bd v), u (alpha df) = alpha (u df)
    law_alpha_times(bd, f);
    law_alpha_times(bd, e);
    law_times_comm(b, alpha(df));
    law_alpha_times(df, b);
    law_times_comm(df, b);
    law_times_comm(a, alpha(df));
    law_alpha_times(df, a);
    law_times_comm(df, a);
    assert(times(bd, f) == times(b, df));
    assert(times(bd, e) == times(b, de));
    assert(times(ad, f) == times(a, df));
    assert(times(ad, e) == times(a, de));
    assert(times(bc, f) == times(b, cf));
    assert(times(bc, e) == times(b, ce));
    assert(times(ac, e) == times(a, ce));
    assert(times(ac, f) == times(a, cf));
    let adf = times(a, df);
    let bcf = times(b, cf);
    let bdf = times(b, df);
    let bde = times(b, de);
    lemma_times_len(a, df);
    lemma_times_len(b, cf);
    lemma_times_len(b, df);
    lemma_times_len(b, de);
    lemma_times_len(a, ce);
    lemma_times_len(a, cf);
    lemma_times_len(a, de);
    lemma_times_len(b, ce);
    lemma_alpha_len(bdf);
    lemma_alpha_len(bde);
    lemma_alpha_len(adf);
    lemma_alpha_len(bcf);
    let l_hi = times(xy1, f);
    let r_hi = times(b, yz1);
    assert(l_hi == plus(plus(adf, bcf), alpha(bdf)));
    assert(r_hi == plus(plus(bcf, bde), alpha(bdf)));
    law_alpha_plus(plus(adf, bcf), alpha(bdf));
    law_alpha_plus(adf, bcf);
    law_alpha_plus(plus(bcf, bde), alpha(bdf));
    law_alpha_plus(bcf, bde);
    lemma_alpha_len(alpha(bdf));
    let l_lo = times(xy0, e);
    let r_lo = times(a, yz0);
    assert(plus(l_lo, l_hi) =~= plus(r_lo, r_hi));
    let l_mid = plus(times(xy0, f), times(xy1, e));
    let r_mid = plus(times(a, yz1), times(b, yz0));
    assert(times(xy1, e) == plus(plus(times(a, de), times(b, ce)), alpha(bde)));
    assert(times(a, yz1) == plus(plus(times(a, cf), times(a, de)), alpha(adf)));
    assert(plus(l_mid, alpha(l_hi)) =~= plus(r_mid, alpha(r_hi)));
}

/// Multiplication is associative.
pub proof fn law_times_assoc(x: Elt, y: Elt, z: Elt)
    requires
        level(x.len()),
        x.len() == y.len() == z.len(),
    ensures
        times(times(x, y), z) == times(x, times(y, z)),
    decreases x.len(),
{
    if x.len() >= 2 {
        let m = x.len() / 2;
        assert forall|p: Elt, q: Elt, r: Elt|
            p.len() == m && q.len() == m && r.len() == m implies #[trigger] times(times(p, q), r)
            == times(p, times(q, r)) by {
            law_times_assoc(p, q, r);
        }
        lemma_assoc_step(x, y, z);
    } else {
        assert(times(times(x, y), z) =~= times(x, times(y, z)));
    }
}

pub proof fn lemma_times_zero(x: Elt)
    requires
        level(x.len()),
    ensures
        times(x, zero(x.len())) == zero(x.len()),
{
    let z = zero(x.len());
    law_plus_self(z);
    law_distribute_right(x, z, z);
    lemma_times_len(x, z);
    law_plus_self(times(x, z));
}

pub proof fn lemma_alpha_zero(n: nat)
    requires
        level(n),
    ensures
        alpha(zero(n)) == zero(n),
{
    law_plus_self(zero(n));
    law_alpha_plus(zero(n), zero(n));
    lemma_alpha_len(zero(n));
    law_plus_self(alpha(zero(n)));
}

/// One is the multiplicative unit.
pub proof fn law_times_one(x: Elt)
    requires
        level(x.len()),
    ensures
        times(x, one(x.len())) == x,
        times(one(x.len()), x) == x,
    decreases x.len(),
{
    let n = x.len();
    if n >= 2 {
        lemma_halves(x);
        lemma_halves(one(n));
        assert(lo(one(n)) =~= one(n / 2));
        assert(hi(one(n)) =~= zero(n / 2));
        law_times_one(lo(x));
        law_times_one(hi(x));
        lemma_times_zero(lo(x));
        lemma_times_zero(hi(x));
        lemma_alpha_zero(n / 2);
        assert(times(x, one(n)) =~= x);
    } else {
        assert(times(x, one(n)) =~= x);
    }
    law_times_comm(x, one(n));
}

/// An element has at most one inverse.
pub proof fn law_inverse_unique(x: Elt, r: Elt)
    requires
        level(x.len()),
        r.len() == x.len(),
        times(x, r) == one(x.len()),
    ensures
        inverse(x) == r,
{
    let s = inverse(x);
    assert(s.len() == x.len() && times(x, s) == one(x.len()));
    law_times_one(r);
    law_times_one(s);
    law_times_assoc(r, x, s);
    law_times_comm(r, x);
}

/// Squaring has no cross term: `(a0 + a1 X)^2 = (a0^2 + a1^2) + a a1^2 X`.
pub proof fn law_square(x: Elt)
    requires
        level(x.len()),
        x.len() >= 2,
    ensures
        times(x, x) == plus(times(lo(x), lo(x)), times(hi(x), hi(x))) + alpha(
            times(hi(x), hi(x)),
        ),
{
    lemma_halves(x);
    law_times_comm(lo(x), hi(x));
    lemma_times_len(lo(x), hi(x));
    lemma_times_len(hi(x), hi(x));
    lemma_alpha_len(times(hi(x), hi(x)));
    law_plus_self(times(lo(x), hi(x)));
    assert(plus(zero((x.len() / 2) as nat), alpha(times(hi(x), hi(x)))) =~= alpha(
        times(hi(x), hi(x)),
    ));
}

/// Karatsuba: the cross term from one product.
pub proof fn law_karatsuba(a0: Elt, a1: Elt, b0: Elt, b1: Elt)
    requires
        level(a0.len()),
        a0.len() == a1.len() == b0.len() == b1.len(),
    ensures
        plus(plus(times(plus(a0, a1), plus(b0, b1)), times(a0, b0)), times(a1, b1)) == plus(
            times(a0, b1),
            times(a1, b0),
        ),
{
    law_distribute_left(a0, a1, plus(b0, b1));
    law_distribute_right(a0, b0, b1);
    law_distribute_right(a1, b0, b1);
    lemma_times_len(a0, b0);
    lemma_times_len(a0, b1);
    lemma_times_len(a1, b0);
    lemma_times_len(a1, b1);
    assert(plus(plus(times(plus(a0, a1), plus(b0, b1)), times(a0, b0)), times(a1, b1)) =~= plus(
        times(a0, b1),
        times(a1, b0),
    ));
}

// ---------------------------------------------------------------------------
// Units and subfields.
// ---------------------------------------------------------------------------

/// `x` has an inverse.
pub open spec fn unit(x: Elt) -> bool {
    exists|r: Elt| r.len() == x.len() && #[trigger] times(x, r) == one(x.len())
}

/// A product of units is a unit.
pub proof fn law_unit_times(x: Elt, y: Elt)
    requires
        level(x.len()),
        x.len() == y.len(),
        unit(x),
        unit(y),
    ensures
        unit(times(x, y)),
{
    let n = x.len();
    let r = choose|r: Elt| r.len() == n && #[trigger] times(x, r) == one(n);
    let s = choose|s: Elt| s.len() == n && #[trigger] times(y, s) == one(n);
    lemma_times_len(x, y);
    lemma_times_len(s, r);
    lemma_times_len(y, s);
    // (x y)(s r) = x ((y s) r) = x r = 1
    law_times_assoc(x, y, times(s, r));
    law_times_assoc(y, s, r);
    law_times_one(r);
    assert(times(times(x, y), times(s, r)) == one(n));
}

/// Zero is not a unit.
pub proof fn law_zero_not_unit(n: nat)
    requires
        level(n),
    ensures
        !unit(zero(n)),
{
    if unit(zero(n)) {
        let r = choose|r: Elt| r.len() == n && #[trigger] times(zero(n), r) == one(n);
        lemma_times_zero(r);
        law_times_comm(r, zero(n));
        assert(one(n)[0] != zero(n)[0]);
    }
}

/// A unit times its inverse is one.
pub proof fn law_unit_inverse(x: Elt)
    requires
        level(x.len()),
        unit(x),
    ensures
        inverse(x).len() == x.len(),
        times(x, inverse(x)) == one(x.len()),
{
    let r = choose|r: Elt| r.len() == x.len() && #[trigger] times(x, r) == one(x.len());
    law_inverse_unique(x, r);
}

/// An element of a level as an element of the next.
pub open spec fn lifted(x: Elt) -> Elt {
    x + zero(x.len())
}

/// Lifting is a ring homomorphism.
pub proof fn law_lift(x: Elt, y: Elt)
    requires
        level(x.len()),
        x.len() == y.len(),
    ensures
        lifted(x).len() == 2 * x.len(),
        level(2 * x.len()),
        times(lifted(x), lifted(y)) == lifted(times(x, y)),
        lifted(one(x.len())) == one(2 * x.len()),
{
    let n = x.len();
    let z = zero(n);
    lemma_level_step(n);
    lemma_join(x, z);
    lemma_join(y, z);
    lemma_times_len(x, y);
    lemma_times_zero(x);
    lemma_times_zero(z);
    lemma_times_zero(y);
    law_times_comm(y, z);
    law_plus_self(times(x, y));
    law_plus_self(z);
    lemma_alpha_zero(n);
    assert(times(lifted(x), lifted(y)) =~= lifted(times(x, y)));
    assert(lifted(one(n)) =~= one(2 * n));
}

/// A unit stays one when lifted.
pub proof fn law_lift_unit(x: Elt)
    requires
        level(x.len()),
        unit(x),
    ensures
        unit(lifted(x)),
{
    let r = choose|r: Elt| r.len() == x.len() && #[trigger] times(x, r) == one(x.len());
    law_lift(x, r);
    assert(times(lifted(x), lifted(r)) == one(lifted(x).len()));
}

proof fn lemma_times_2(a0: bool, a1: bool, b0: bool, b1: bool)
    ensures
        times(seq![a0, a1], seq![b0, b1]) == seq![
            (a0 && b0) != (a1 && b1),
            ((a0 && b1) != (a1 && b0)) != (a1 && b1),
        ],
        alpha(seq![a0, a1]) == seq![a1, a0 != a1],
{
    reveal_with_fuel(times, 2);
    reveal_with_fuel(alpha, 2);
    let x = seq![a0, a1];
    let y = seq![b0, b1];
    assert(lo(x) =~= seq![a0]);
    assert(hi(x) =~= seq![a1]);
    assert(lo(y) =~= seq![b0]);
    assert(hi(y) =~= seq![b1]);
    assert(times(x, y) =~= seq![
        (a0 && b0) != (a1 && b1),
        ((a0 && b1) != (a1 && b0)) != (a1 && b1),
    ]);
    assert(alpha(x) =~= seq![a1, a0 != a1]);
}

/// The product of two elements of `GF(16)`, on halves.
proof fn lemma_times_4(x: Elt, y: Elt, x0: Elt, x1: Elt, y0: Elt, y1: Elt)
    requires
        x == x0 + x1,
        y == y0 + y1,
        x0.len() == 2,
        x1.len() == 2,
        y0.len() == 2,
        y1.len() == 2,
    ensures
        times(x, y) == plus(times(x0, y0), times(x1, y1)) + plus(
            plus(times(x0, y1), times(x1, y0)),
            alpha(times(x1, y1)),
        ),
{
    lemma_join(x0, x1);
    lemma_join(y0, y1);
}

/// The inverse of `d` in `GF(16)`, for `d` in `1..8`.
spec fn inverse_16(d: u128) -> u128 {
    if d == 1 {
        1
    } else if d == 2 {
        3
    } else if d == 3 {
        2
    } else if d == 4 {
        6
    } else if d == 5 {
        14
    } else if d == 6 {
        4
    } else {
        15
    }
}

proof fn lemma_bits_4(d: u128)
    by (bit_vector)
    requires
        d < 16,
    ensures
        ((d >> 0u128) & 1 == 1) == (d % 2 == 1),
        ((d >> 1u128) & 1 == 1) == (d / 2 % 2 == 1),
        ((d >> 2u128) & 1 == 1) == (d / 4 % 2 == 1),
        ((d >> 3u128) & 1 == 1) == (d / 8 % 2 == 1),
{
}

/// The four low bits of a small number.
spec fn low_4(d: u128) -> Elt {
    seq![d % 2 == 1, d / 2 % 2 == 1, d / 4 % 2 == 1, d / 8 % 2 == 1]
}

proof fn lemma_unit_16(d: u128)
    requires
        1 <= d < 8,
    ensures
        unit(low_4(d)),
{
    let e = inverse_16(d);
    let (x, y) = (low_4(d), low_4(e));
    let x0 = seq![x[0], x[1]];
    let x1 = seq![x[2], x[3]];
    let y0 = seq![y[0], y[1]];
    let y1 = seq![y[2], y[3]];
    assert(x =~= x0 + x1);
    assert(y =~= y0 + y1);
    lemma_times_4(x, y, x0, x1, y0, y1);
    lemma_times_2(x[0], x[1], y[0], y[1]);
    lemma_times_2(x[2], x[3], y[2], y[3]);
    lemma_times_2(x[0], x[1], y[2], y[3]);
    lemma_times_2(x[2], x[3], y[0], y[1]);
    let z = times(x1, y1);
    assert(z =~= seq![z[0], z[1]]);
    lemma_times_2(z[0], z[1], true, true);
    assert(times(x, y) =~= one(4));
    assert(x.len() == 4);
}

proof fn lemma_high_bits_zero(d: u128, i: u128)
    by (bit_vector)
    requires
        d < 16,
        4 <= i < 128,
    ensures
        (d >> i) & 1 == 0,
{
}

/// The small nonzero elements are units.
pub proof fn lemma_small_unit(d: u128)
    requires
        1 <= d < 8,
    ensures
        unit(bits_of(d, 128)),
{
    lemma_level_128();
    lemma_unit_16(d);
    lemma_bits_4(d);
    let x4 = low_4(d);
    let x8 = lifted(x4);
    let x16 = lifted(x8);
    let x32 = lifted(x16);
    let x64 = lifted(x32);
    let x128 = lifted(x64);
    law_lift_unit(x4);
    law_lift_unit(x8);
    law_lift_unit(x16);
    law_lift_unit(x32);
    law_lift_unit(x64);
    assert forall|i: int| 0 <= i < 128 implies bits_of(d, 128)[i] == x128[i] by {
        if i >= 4 {
            lemma_high_bits_zero(d, i as u128);
        }
    }
    assert(bits_of(d, 128) =~= x128);
}

// ---------------------------------------------------------------------------
// The 128-bit level.
// ---------------------------------------------------------------------------

/// Bit `i` of `v`.
pub open spec fn bit(v: u128, i: int) -> bool {
    (v >> (i as u128)) & 1u128 == 1u128
}

/// The low `n` bits of `v`, bit 0 first.
pub open spec fn bits_of(v: u128, n: nat) -> Seq<bool> {
    Seq::new(n, |i: int| bit(v, i))
}

pub open spec fn zero128() -> Elt {
    zero(128)
}

pub open spec fn one128() -> Elt {
    one(128)
}

proof fn lemma_level_step(n: nat)
    requires
        level(n),
        n >= 1,
    ensures
        level(2 * n),
{
    assert((2 * n) / 2 == n);
}

pub proof fn lemma_level_128()
    ensures
        level(1),
        level(2),
        level(4),
        level(8),
        level(16),
        level(32),
        level(64),
        level(128),
{
    lemma_level_step(1);
    lemma_level_step(2);
    lemma_level_step(4);
    lemma_level_step(8);
    lemma_level_step(16);
    lemma_level_step(32);
    lemma_level_step(64);
}

proof fn lemma_shr_eq(a: u128, b: u128, i: u128)
    requires
        i <= 127,
        forall|j: int| 0 <= j < 128 ==> #[trigger] bit(a, j) == bit(b, j),
    ensures
        a >> i == b >> i,
    decreases 127 - i,
{
    assert(bit(a, i as int) == bit(b, i as int));
    if i == 127 {
        assert((a >> 127u128) & 1 == a >> 127u128) by (bit_vector);
        assert((b >> 127u128) & 1 == b >> 127u128) by (bit_vector);
        assert((a >> 127u128) & 1 == 0 || (a >> 127u128) & 1 == 1) by (bit_vector);
        assert((b >> 127u128) & 1 == 0 || (b >> 127u128) & 1 == 1) by (bit_vector);
    } else {
        let k: u128 = (i + 1) as u128;
        lemma_shr_eq(a, b, k);
        assert(a >> i == b >> i) by (bit_vector)
            requires
                i < 127,
                k == i + 1,
                a >> k == b >> k,
                ((a >> i) & 1u128 == 1u128) == ((b >> i) & 1u128 == 1u128),
        ;
    }
}

/// A 128-bit value is determined by its bits.
pub proof fn lemma_bits_injective(a: u128, b: u128)
    requires
        bits_of(a, 128) == bits_of(b, 128),
    ensures
        a == b,
{
    assert forall|j: int| 0 <= j < 128 implies #[trigger] bit(a, j) == bit(b, j) by {
        assert(bits_of(a, 128)[j] == bit(a, j));
        assert(bits_of(b, 128)[j] == bit(b, j));
    }
    lemma_shr_eq(a, b, 0);
    assert(a >> 0u128 == a) by (bit_vector);
    assert(b >> 0u128 == b) by (bit_vector);
}

pub proof fn lemma_bit_xor(a: u128, b: u128, i: int)
    requires
        0 <= i < 128,
    ensures
        bit(a ^ b, i) == (bit(a, i) != bit(b, i)),
{
    let k = i as u128;
    assert((((a ^ b) >> k) & 1 == 1) == (((a >> k) & 1 == 1) != ((b >> k) & 1 == 1)))
        by (bit_vector);
}

pub proof fn lemma_zero_bits(i: int)
    requires
        0 <= i < 128,
    ensures
        !bit(0, i),
{
    let k = i as u128;
    assert((0u128 >> k) & 1 == 0) by (bit_vector);
}

/// An element of `GF(2^128)`, as its bit pattern.
#[derive(Clone, Copy, Debug, PartialEq, Eq, Structural)]
pub struct F {
    pub repr: u128,
}

impl View for F {
    type V = Elt;

    open spec fn view(&self) -> Elt {
        bits_of(self.repr, 128)
    }
}

/// Two elements with the same bits are equal.
pub proof fn lemma_f_injective(a: F, b: F)
    requires
        a@ == b@,
    ensures
        a == b,
{
    lemma_bits_injective(a.repr, b.repr);
}

/// The `i`-th vector of the Cantor basis of `GF(2^128)`, as a bit pattern.
pub uninterp spec fn cantor(i: int) -> u128;

/// `v` follows `before` in the Cantor basis: `v^2 + v = before`, the root whose
/// lowest bit is clear. The first vector is one.
pub open spec fn follows(v: Elt, i: int, before: Elt) -> bool {
    if i == 0 {
        v == one(128)
    } else {
        plus(times(v, v), v) == before && !v[0]
    }
}

/// `BinaryField128`'s product, in `p3-binary-field`: the tower's product of
/// the two bit patterns.
#[verifier::external_body]
fn tower_product(a: u128, b: u128) -> (r: u128)
    ensures
        bits_of(r, 128) == times(bits_of(a, 128), bits_of(b, 128)),
{
    let x: p3_binary_field::BinaryField128 = p3_binary_field::TowerLevel::from_repr(a);
    let y: p3_binary_field::BinaryField128 = p3_binary_field::TowerLevel::from_repr(b);
    p3_binary_field::TowerLevel::to_repr(x * y)
}

/// `BinaryField128::square`, in `p3-binary-field`: the tower's product of the
/// bit pattern with itself.
#[verifier::external_body]
fn tower_square(a: u128) -> (r: u128)
    ensures
        bits_of(r, 128) == times(bits_of(a, 128), bits_of(a, 128)),
{
    let x: p3_binary_field::BinaryField128 = p3_binary_field::TowerLevel::from_repr(a);
    p3_binary_field::TowerLevel::to_repr(p3_field::PrimeCharacteristicRing::square(&x))
}

/// `BinaryField128::try_inverse`, in `p3-binary-field`: nothing for zero, and
/// for every other element the one whose product with it is one.
#[verifier::external_body]
fn tower_inverse(a: u128) -> (r: Option<u128>)
    ensures
        r is None <==> a == 0,
        r is Some ==> times(bits_of(a, 128), bits_of(r->0, 128)) == one(128),
{
    let x: p3_binary_field::BinaryField128 = p3_binary_field::TowerLevel::from_repr(a);
    p3_field::Field::try_inverse(&x).map(p3_binary_field::TowerLevel::to_repr)
}

/// `BinaryField128::cantor_basis`, in `p3-binary-field`: an entry of a fixed
/// table of 128, which starts with one and goes on with the root of
/// `v^2 + v = w` whose lowest bit is clear, `w` the entry before.
#[verifier::external_body]
fn tower_cantor_basis(i: usize) -> (r: u128)
    requires
        i < 128,
    ensures
        r == cantor(i as int),
        follows(bits_of(r, 128), i as int, bits_of(cantor(i - 1), 128)),
{
    let x: p3_binary_field::BinaryField128 = p3_binary_field::TowerLevel::cantor_basis(i);
    p3_binary_field::TowerLevel::to_repr(x)
}

impl F {
    /// The element with the bit pattern `repr`.
    pub fn from_repr(repr: u128) -> (x: F)
        ensures
            x.repr == repr,
    {
        F { repr }
    }

    /// The element's bit pattern.
    pub fn to_repr(self) -> (repr: u128)
        ensures
            repr == self.repr,
    {
        self.repr
    }

    pub fn zero() -> (x: F)
        ensures
            x@ == zero128(),
            x.repr == 0,
    {
        proof {
            assert forall|i: int| 0 <= i < 128 implies !bit(0, i) by {
                lemma_zero_bits(i);
            }
            assert(bits_of(0, 128) =~= zero128());
        }
        F { repr: 0 }
    }

    pub fn one() -> (x: F)
        ensures
            x@ == one128(),
            x.repr == 1,
    {
        proof {
            assert forall|i: int| 0 <= i < 128 implies bit(1, i) == (i == 0) by {
                let k = i as u128;
                assert(k < 128 ==> (((1u128 >> k) & 1 == 1) == (k == 0))) by (bit_vector);
            }
            assert(bits_of(1, 128) =~= one128());
        }
        F { repr: 1 }
    }

    /// `self + y`.
    pub fn plus(self, y: F) -> (r: F)
        ensures
            r@ == self::plus(self@, y@),
    {
        proof {
            assert forall|i: int| 0 <= i < 128 implies bit(self.repr ^ y.repr, i) == (bit(
                self.repr,
                i,
            ) != bit(y.repr, i)) by {
                lemma_bit_xor(self.repr, y.repr, i);
            }
            assert(bits_of(self.repr ^ y.repr, 128) =~= self::plus(self@, y@));
        }
        F { repr: self.repr ^ y.repr }
    }

    /// `self * y`.
    pub fn times(self, y: F) -> (r: F)
        ensures
            r@ == self::times(self@, y@),
    {
        F { repr: tower_product(self.repr, y.repr) }
    }

    /// `self * self`.
    pub fn square(self) -> (r: F)
        ensures
            r@ == self::times(self@, self@),
    {
        F { repr: tower_square(self.repr) }
    }

    /// The inverse of a nonzero element.
    pub fn inverse(self) -> (r: Option<F>)
        ensures
            r is None <==> self.repr == 0,
            r is Some ==> r->0@ == self::inverse(self@),
            r is Some ==> self::times(self@, r->0@) == one128(),
    {
        match tower_inverse(self.repr) {
            Some(repr) => {
                proof {
                    lemma_level_128();
                    law_inverse_unique(self@, bits_of(repr, 128));
                }
                Some(F { repr })
            },
            None => None,
        }
    }

    /// `self^e`.
    pub fn power(self, e: usize) -> (r: F)
        ensures
            r@ == self::power(self@, e as nat),
    {
        let mut acc = F::one();
        let mut i: usize = 0;
        while i < e
            invariant
                i <= e,
                acc@ == self::power(self@, i as nat),
            decreases e - i,
        {
            acc = acc.times(self);
            i = i + 1;
        }
        acc
    }

    /// The `i`-th vector of the Cantor basis.
    pub fn cantor_basis(i: usize) -> (x: F)
        requires
            i < 128,
        ensures
            x.repr == cantor(i as int),
            follows(x@, i as int, bits_of(cantor(i - 1), 128)),
    {
        F { repr: tower_cantor_basis(i) }
    }
}

} // verus!

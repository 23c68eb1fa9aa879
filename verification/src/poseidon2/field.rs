//! KoalaBear, `p = 2^31 - 2^24 + 1`, as integers below `p`.
use super::constants::P;
use vstd::prelude::*;

verus! {

/// `a + b mod p`.
pub open spec fn plus(a: int, b: int) -> int {
    (a + b) % (P as int)
}

/// `a - b mod p`.
pub open spec fn minus(a: int, b: int) -> int {
    (a - b) % (P as int)
}

/// `a b mod p`.
pub open spec fn times(a: int, b: int) -> int {
    (a * b) % (P as int)
}

/// `1/2`, which is `(p + 1) / 2`.
pub open spec fn half() -> int {
    1065353217
}

/// `x / 2^k`.
pub open spec fn shrunk(x: int, k: nat) -> int
    decreases k,
{
    if k == 0 {
        x
    } else {
        times(shrunk(x, (k - 1) as nat), half())
    }
}

/// `x^3`.
pub open spec fn cube(x: int) -> int {
    times(times(x, x), x)
}

/// `x^e`.
pub open spec fn power(x: int, e: nat) -> int
    decreases e,
{
    if e == 0 {
        1
    } else {
        times(power(x, (e - 1) as nat), x)
    }
}

/// A canonical element.
pub open spec fn canonical(x: int) -> bool {
    0 <= x < P
}

/// Every operation gives a canonical element.
pub broadcast proof fn law_canonical(a: int, b: int)
    ensures
        canonical(#[trigger] plus(a, b)),
        canonical(#[trigger] minus(a, b)),
        canonical(#[trigger] times(a, b)),
{
}

pub proof fn lemma_plus_canonical(a: int, b: int)
    ensures
        canonical(plus(a, b)),
        canonical(minus(a, b)),
        canonical(times(a, b)),
{
}

/// Multiplication forgets multiples of `p`.
pub proof fn lemma_times_mod(a: int, b: int)
    ensures
        times(a % (P as int), b) == times(a, b),
        times(a, b % (P as int)) == times(a, b),
{
    vstd::arithmetic::div_mod::lemma_mul_mod_noop_left(a, b, P as int);
    vstd::arithmetic::div_mod::lemma_mul_mod_noop_right(a, b, P as int);
}

pub proof fn law_times_commutes(a: int, b: int)
    ensures
        times(a, b) == times(b, a),
{
    vstd::arithmetic::mul::lemma_mul_is_commutative(a, b);
}

pub proof fn law_times_associates(a: int, b: int, c: int)
    ensures
        times(times(a, b), c) == times(a, times(b, c)),
{
    lemma_times_mod(a * b, c);
    lemma_times_mod(a, b * c);
    vstd::arithmetic::mul::lemma_mul_is_associative(a, b, c);
}

pub proof fn law_times_distributes(a: int, b: int, c: int)
    ensures
        times(a, plus(b, c)) == plus(times(a, b), times(a, c)),
{
    lemma_times_mod(a, b + c);
    vstd::arithmetic::mul::lemma_mul_is_distributive_add(a, b, c);
}

/// Halving undoes doubling, for an even and for an odd numerator.
pub proof fn law_half(x: int, h: int)
    requires
        canonical(h),
        2 * h == x || 2 * h == x + P,
    ensures
        times(x, half()) == h,
{
    let p = P as int;
    if 2 * h == x {
        assert(x * half() == h + h * p) by (nonlinear_arith)
            requires
                2 * h == x,
                p == 2130706433,
                half() == 1065353217,
        ;
        vstd::arithmetic::div_mod::lemma_mod_multiples_vanish(h, h, p);
        assert(h * p == p * h) by (nonlinear_arith);
        vstd::arithmetic::div_mod::lemma_small_mod(h as nat, p as nat);
    } else {
        assert(x * half() == (h - half()) * p + h) by (nonlinear_arith)
            requires
                2 * h == x + p,
                p == 2130706433,
                half() == 1065353217,
        ;
        vstd::arithmetic::div_mod::lemma_mod_multiples_vanish(h - half(), h, p);
        assert((h - half()) * p == p * (h - half())) by (nonlinear_arith);
        vstd::arithmetic::div_mod::lemma_small_mod(h as nat, p as nat);
    }
}

/// A power of a product of exponents by squaring: `x^(2k) = (x^2)^k`.
pub proof fn law_power_square(x: int, k: nat)
    ensures
        power(x, 2 * k) == power(times(x, x), k),
    decreases k,
{
    if k > 0 {
        law_power_square(x, (k - 1) as nat);
        let q = power(x, (2 * k - 2) as nat);
        assert(power(x, (2 * k - 1) as nat) == times(q, x));
        assert(power(x, 2 * k) == times(times(q, x), x));
        law_times_associates(q, x, x);
    }
}

/// `a b`, in full.
fn product(a: u32, b: u32) -> (r: u64)
    ensures
        r == a * b,
{
    assert(a * b <= 0xffff_ffff * 0xffff_ffff) by (nonlinear_arith)
        requires
            a <= 0xffff_ffff,
            b <= 0xffff_ffff,
    ;
    assert(a * b >= 0) by (nonlinear_arith);
    a as u64 * b as u64
}

/// `a + b mod p`.
pub fn add(a: u32, b: u32) -> (r: u32)
    ensures
        r == plus(a as int, b as int),
        r < P,
{
    ((a as u64 + b as u64) % (P as u64)) as u32
}

/// `a - b mod p`.
pub fn sub(a: u32, b: u32) -> (r: u32)
    ensures
        r == minus(a as int, b as int),
        r < P,
{
    let x: u64 = a as u64 + 3 * (P as u64) - b as u64;
    assert((a - b + 3 * P) % (P as int) == (a - b) % (P as int));
    (x % (P as u64)) as u32
}

/// `a b mod p`.
pub fn mul(a: u32, b: u32) -> (r: u32)
    ensures
        r == times(a as int, b as int),
        r < P,
{
    (product(a, b) % (P as u64)) as u32
}

/// `x / 2^k`, for a canonical `x`.
pub fn div_2exp(x: u32, k: u32) -> (r: u32)
    requires
        x < P,
    ensures
        r == shrunk(x as int, k as nat),
        r < P,
{
    let mut acc: u32 = x;
    let mut i: u32 = 0;
    while i < k
        invariant
            i <= k,
            acc < P,
            acc == shrunk(x as int, i as nat),
        decreases k - i,
    {
        acc = self::mul(acc, 1065353217);
        i = i + 1;
    }
    acc
}

/// `x^3`.
pub fn sbox(x: u32) -> (r: u32)
    ensures
        r == cube(x as int),
        r < P,
{
    self::mul(self::mul(x, x), x)
}

} // verus!

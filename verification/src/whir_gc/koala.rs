//! KoalaBear (`p = 2^31 - 2^24 + 1`) and Poseidon2 over it, as boolean
//! circuits: the cost of verifying a prime-field, Poseidon2-committed proof
//! in gates.
//!
//! An element is 31 wires, least significant first, canonical (`< p`).
//! Multi-operand sums are kept as weight-indexed columns of bits and reduced
//! by carry-save compression (one AND per full adder); modular reduction
//! folds `2^31 = 2^24 - 1` and finishes with conditional subtractions.
use super::gates::CircuitTrait;
use super::koala_bits;
use super::koala_bits::{
    add_const, mux_words, sub_const, sub_words,
};
use super::netlist;
use super::netlist::{Env, Netlist};
use crate::poseidon2::constants::{EXTERNAL_FINAL, EXTERNAL_INITIAL, INTERNAL, P, WIDTH};
use crate::poseidon2::constants;
use crate::poseidon2::ext4;
use crate::poseidon2::field;
use crate::poseidon2::reference;
use vstd::arithmetic::power2::{lemma_pow2_pos, lemma_pow2_unfold, pow2};
use vstd::prelude::*;

pub use super::koala_bits::Cols;

verus! {

broadcast use netlist::group_netlist;

pub const BITS: usize = 31;

/// An element: 31 wires, least significant first, canonical.
pub type Fp = Vec<usize>;

// ---------------------------------------------------------------------------
// Modular reduction.
// ---------------------------------------------------------------------------

/// The number carried by high bits `(weight, wire)`.
spec fn high_sum(c: Netlist, env: Env, high: Seq<(usize, usize)>) -> int
    decreases high.len(),
{
    if high.len() == 0 {
        0
    } else {
        high_sum(c, env, high.drop_last()) + koala_bits::unit(
            netlist::value(c, env, high.last().1 as int),
        ) * pow2(high.last().0 as nat)
    }
}

/// The same, `2^31` times smaller.
spec fn high_quotient(c: Netlist, env: Env, high: Seq<(usize, usize)>) -> int
    decreases high.len(),
{
    if high.len() == 0 {
        0
    } else {
        high_quotient(c, env, high.drop_last()) + koala_bits::unit(
            netlist::value(c, env, high.last().1 as int),
        ) * pow2((high.last().0 - 31) as nat)
    }
}

/// The same, with every wire set.
spec fn high_capacity(high: Seq<(usize, usize)>) -> int
    decreases high.len(),
{
    if high.len() == 0 {
        0
    } else {
        high_capacity(high.drop_last()) + pow2(high.last().0 as nat)
    }
}

/// Bits of weight `2^31` and more.
spec fn high_ok(high: Seq<(usize, usize)>, n: nat) -> bool {
    forall|i: int| 0 <= i < high.len() ==> 31 <= (#[trigger] high[i]).0 && high[i].1 < n
}

/// The bits of weight `2^31` and more, by weight.
#[verifier::rlimit(40)]
fn high_bits(cols: &Vec<Vec<usize>>, Ghost(n): Ghost<nat>) -> (high: Vec<(usize, usize)>)
    requires
        koala_bits::cols_ok(cols@, n),
    ensures
        high_ok(high@, n),
        forall|i: int| 0 <= i < high@.len() ==> (#[trigger] high@[i]).0 < cols@.len(),
        high@.len() == 0 <==> koala_bits::folded(cols@),
        cols@.len() >= 31 ==> {
            &&& koala_bits::capacity(cols@) == koala_bits::capacity(cols@.take(31))
                + high_capacity(high@)
            &&& forall|c: Netlist, env: Env| #[trigger]
                koala_bits::total(c, env, cols@) == koala_bits::total(c, env, cols@.take(31))
                    + high_sum(c, env, high@)
        },
{
    let mut high: Vec<(usize, usize)> = Vec::new();
    let len = cols.len();
    let mut j: usize = 31;
    while j < len
        invariant
            31 <= j,
            j <= len || j == 31,
            len == cols@.len(),
            koala_bits::cols_ok(cols@, n),
            high_ok(high@, n),
            forall|i: int| 0 <= i < high@.len() ==> (#[trigger] high@[i]).0 < cols@.len(),
            high@.len() == 0 <==> forall|k: int|
                31 <= k < j && k < len ==> (#[trigger] cols@[k])@.len() == 0,
            j <= len ==> {
                &&& koala_bits::capacity(cols@.take(j as int)) == koala_bits::capacity(
                    cols@.take(31),
                ) + high_capacity(high@)
                &&& forall|c: Netlist, env: Env| #[trigger]
                    koala_bits::total(c, env, cols@.take(j as int)) == koala_bits::total(
                        c,
                        env,
                        cols@.take(31),
                    ) + high_sum(c, env, high@)
            },
        decreases len - j,
    {
        let col = &cols[j];
        let width = col.len();
        let ghost before = high@;
        let ghost w = pow2(j as nat) as int;
        let mut i: usize = 0;
        assert(netlist::below(cols@[j as int]@, n));
        proof {
            assert(high_capacity(high@) == high_capacity(before) + 0 * w);
            assert forall|c: Netlist, env: Env| #[trigger] high_sum(c, env, high@) == high_sum(
                c,
                env,
                before,
            ) + koala_bits::ones(netlist::bits(c, env, col@).take(0)) * w by {
                assert(0 * w == 0);
            }
        }
        while i < width
            invariant
                i <= width,
                width == col@.len(),
                31 <= j < len,
                len == cols@.len(),
                netlist::below(col@, n),
                w == pow2(j as nat),
                high_ok(high@, n),
                forall|k: int| 0 <= k < high@.len() ==> (#[trigger] high@[k]).0 < len,
                high@.len() == before.len() + i,
                high_capacity(high@) == high_capacity(before) + i * w,
                forall|c: Netlist, env: Env| #[trigger]
                    high_sum(c, env, high@) == high_sum(c, env, before) + koala_bits::ones(
                        netlist::bits(c, env, col@).take(i as int),
                    ) * w,
            decreases width - i,
        {
            let ghost now = high@;
            high.push((j, col[i]));
            proof {
                assert(high@.drop_last() =~= now);
                assert((i + 1) * w == i * w + w) by (nonlinear_arith);
                assert forall|c: Netlist, env: Env| #[trigger] high_sum(c, env, high@)
                    == high_sum(c, env, before) + koala_bits::ones(
                    netlist::bits(c, env, col@).take(i + 1),
                ) * w by {
                    koala_bits::lemma_bits_take(c, env, col@, i as int);
                    let a = koala_bits::ones(netlist::bits(c, env, col@).take(i as int));
                    let u = koala_bits::unit(netlist::value(c, env, col@[i as int] as int));
                    assert(high_sum(c, env, now) == high_sum(c, env, before) + a * w);
                    assert((a + u) * w == a * w + u * w) by (nonlinear_arith);
                }
            }
            i = i + 1;
        }
        proof {
            koala_bits::lemma_take_column(
                Netlist { next: 2, inputs: 0, gates: Seq::empty(), told: Map::empty() },
                |k: int| false,
                cols@,
                j as int,
            );
            assert forall|c: Netlist, env: Env| #[trigger]
                koala_bits::total(c, env, cols@.take(j + 1)) == koala_bits::total(
                    c,
                    env,
                    cols@.take(31),
                ) + high_sum(c, env, high@) by {
                koala_bits::lemma_take_column(c, env, cols@, j as int);
                assert(netlist::bits(c, env, col@).take(width as int) =~= netlist::bits(
                    c,
                    env,
                    col@,
                ));
                assert(koala_bits::total(c, env, cols@.take(j as int)) == koala_bits::total(
                    c,
                    env,
                    cols@.take(31),
                ) + high_sum(c, env, before));
            }
            if width == 0 {
                assert(high@.len() == before.len());
            } else {
                assert(cols@[j as int]@.len() != 0);
            }
        }
        j = j + 1;
    }
    proof {
        if len >= 31 {
            assert(cols@.take(len as int) =~= cols@);
        }
        if len > 31 {
            assert(j == len);
        }
    }
    high
}

/// `2^(31+k) = 2^(24+k) - 2^k + 2^k p`.
proof fn lemma_fold(k: nat)
    ensures
        pow2(k + 31) == pow2(k + 24) - pow2(k) + pow2(k) * P,
        pow2(k + 31) > pow2(k + 24) + pow2(k),
{
    vstd::arithmetic::power2::lemma2_to64();
    vstd::arithmetic::power2::lemma_pow2_adds(k, 31);
    vstd::arithmetic::power2::lemma_pow2_adds(k, 24);
    lemma_pow2_pos(k);
    let w = pow2(k) as int;
    assert(pow2(31) == 0x8000_0000);
    assert(pow2(24) == 0x100_0000);
    assert(w * 0x8000_0000 == w * 0x100_0000 - w + w * 2130706433);
}

/// Moves every bit of `from` above `2^30` down: `2^(31+k)` is `2^(24+k) - 2^k`
/// modulo `p`. Says whether there was one.
#[verifier::rlimit(60)]
fn fold_side(from: &mut Cols, to: &mut Cols, Ghost(n): Ghost<nat>) -> (moved: bool)
    requires
        koala_bits::cols_ok(old(from).cols@, n),
        koala_bits::cols_ok(old(to).cols@, n),
    ensures
        koala_bits::cols_ok(final(from).cols@, n),
        koala_bits::cols_ok(final(to).cols@, n),
        !moved ==> *final(from) == *old(from) && *final(to) == *old(to) && koala_bits::folded(
            old(from).cols@,
        ),
        moved ==> koala_bits::capacity(final(from).cols@) + koala_bits::capacity(final(to).cols@)
            < koala_bits::capacity(old(from).cols@) + koala_bits::capacity(old(to).cols@),
        forall|c: Netlist, env: Env|
            #![trigger koala_bits::total(c, env, final(from).cols@)]
            #![trigger koala_bits::total(c, env, final(to).cols@)]
            (koala_bits::total(c, env, final(from).cols@) - koala_bits::total(
                c,
                env,
                final(to).cols@,
            )) % (P as int) == (koala_bits::total(c, env, old(from).cols@) - koala_bits::total(
                c,
                env,
                old(to).cols@,
            )) % (P as int),
{
    let ghost from0 = from.cols@;
    let ghost to0 = to.cols@;
    let high = high_bits(&from.cols, Ghost(n));
    if high.len() == 0 {
        return false;
    }
    proof {
        assert(!koala_bits::folded(from0));
        assert(from0.len() > 31);
    }
    from.cols.truncate(31);
    let ghost base = from.cols@;
    assert(base =~= from0.take(31));
    let m = high.len();
    let mut i: usize = 0;
    proof {
        assert forall|j: int| 0 <= j < base.len() implies netlist::below((#[trigger] base[j])@, n) by {
            assert(base[j] == from0[j]);
        }
        assert(high@.take(0) =~= Seq::<(usize, usize)>::empty());
        assert(high@.take(m as int) =~= high@);
        assert forall|c: Netlist, env: Env|
            #![trigger koala_bits::total(c, env, from.cols@)]
            koala_bits::total(c, env, from.cols@) - koala_bits::total(c, env, to.cols@) + (
            P as int) * high_quotient(c, env, high@.take(0)) == koala_bits::total(c, env, base)
                - koala_bits::total(c, env, to0) + high_sum(c, env, high@.take(0)) by {
            assert((P as int) * 0 == 0);
        }
    }
    while i < m
        invariant
            i <= m,
            m == high@.len(),
            high_ok(high@, n),
            koala_bits::cols_ok(from.cols@, n),
            koala_bits::cols_ok(to.cols@, n),
            koala_bits::capacity(from.cols@) + koala_bits::capacity(to.cols@)
                <= koala_bits::capacity(base) + koala_bits::capacity(to0) + high_capacity(
                high@.take(i as int),
            ),
            i > 0 ==> koala_bits::capacity(from.cols@) + koala_bits::capacity(to.cols@)
                < koala_bits::capacity(base) + koala_bits::capacity(to0) + high_capacity(
                high@.take(i as int),
            ),
            forall|c: Netlist, env: Env|
                #![trigger koala_bits::total(c, env, from.cols@)]
                koala_bits::total(c, env, from.cols@) - koala_bits::total(c, env, to.cols@) + (
                P as int) * high_quotient(c, env, high@.take(i as int)) == koala_bits::total(
                    c,
                    env,
                    base,
                ) - koala_bits::total(c, env, to0) + high_sum(c, env, high@.take(i as int)),
        decreases m - i,
    {
        let (j, w) = high[i];
        assert(31 <= high@[i as int].0);
        let k = j - 31;
        let ghost from1 = from.cols@;
        let ghost to1 = to.cols@;
        from.push(24 + k, w);
        to.push(k, w);
        proof {
            assert(high@.take(i + 1).drop_last() =~= high@.take(i as int));
            assert(high@.take(i + 1).last() == (j, w));
            lemma_fold(k as nat);
            assert forall|c: Netlist, env: Env|
                #![trigger koala_bits::total(c, env, from.cols@)]
                koala_bits::total(c, env, from.cols@) - koala_bits::total(c, env, to.cols@) + (
                P as int) * high_quotient(c, env, high@.take(i + 1)) == koala_bits::total(
                    c,
                    env,
                    base,
                ) - koala_bits::total(c, env, to0) + high_sum(c, env, high@.take(i + 1)) by {
                let u = koala_bits::unit(netlist::value(c, env, w as int));
                let (a, b, d) = (
                    pow2((k + 31) as nat) as int,
                    pow2((k + 24) as nat) as int,
                    pow2(k as nat) as int,
                );
                let p = P as int;
                let q = high_quotient(c, env, high@.take(i as int));
                assert(koala_bits::total(c, env, from1) - koala_bits::total(c, env, to1) + p * q
                    == koala_bits::total(c, env, base) - koala_bits::total(c, env, to0) + high_sum(
                    c,
                    env,
                    high@.take(i as int),
                ));
                assert(u * b - u * d + p * (q + u * d) == p * q + u * a) by (nonlinear_arith)
                    requires
                        a == b - d + d * p,
                ;
            }
        }
        i = i + 1;
    }
    proof {
        assert forall|c: Netlist, env: Env|
            #![trigger koala_bits::total(c, env, from.cols@)]
            #![trigger koala_bits::total(c, env, to.cols@)]
            (koala_bits::total(c, env, from.cols@) - koala_bits::total(c, env, to.cols@)) % (
            P as int) == (koala_bits::total(c, env, from0) - koala_bits::total(c, env, to0)) % (
            P as int) by {
            let d = koala_bits::total(c, env, from.cols@) - koala_bits::total(c, env, to.cols@);
            let q = high_quotient(c, env, high@);
            assert(koala_bits::total(c, env, from0) == koala_bits::total(c, env, base) + high_sum(
                c,
                env,
                high@,
            ));
            vstd::arithmetic::div_mod::lemma_mod_multiples_vanish(q, d, P as int);
        }
    }
    true
}

/// How many bits a number takes.
fn bit_width(x: u128) -> (w: usize)
    ensures
        x < pow2(w as nat),
        w > 0 ==> pow2((w - 1) as nat) <= x,
        w <= 128,
{
    let mut w: usize = 0;
    let mut rest: u128 = x;
    let ghost mut part: int = 0;
    proof {
        vstd::arithmetic::power2::lemma2_to64();
    }
    while rest > 0
        invariant
            x == part + pow2(w as nat) * rest,
            0 <= part < pow2(w as nat),
            w > 0 && rest == 0 ==> pow2((w - 1) as nat) <= x,
            w <= 128,
            w < 128 || rest == 0,
            rest > 0 ==> pow2(w as nat) <= x,
        decreases rest,
    {
        let ghost rest0 = rest;
        let ghost part0 = part;
        proof {
            lemma_pow2_unfold((w + 1) as nat);
        }
        let bit = rest % 2;
        rest = rest / 2;
        proof {
            let p = pow2(w as nat) as int;
            part = part0 + bit * p;
            assert(rest0 == 2 * rest + bit);
            assert(p * rest0 == bit * p + (2 * p) * rest) by (nonlinear_arith)
                requires
                    rest0 == 2 * rest + bit,
            ;
            assert(0 <= bit * p <= p) by (nonlinear_arith)
                requires
                    0 <= bit <= 1,
                    p >= 0,
            ;
            assert(p * rest0 >= p) by (nonlinear_arith)
                requires
                    rest0 >= 1,
                    p >= 0,
            ;
            if rest > 0 {
                assert((2 * p) * rest >= 2 * p) by (nonlinear_arith)
                    requires
                        rest >= 1,
                        p >= 0,
                ;
            }
            if w == 127 && rest > 0 {
                lemma_pow2_128();
                assert(false);
            }
        }
        w = w + 1;
    }
    proof {
        assert(pow2(w as nat) * 0 == 0);
    }
    w
}

proof fn lemma_pow2_128()
    ensures
        pow2(128) == 0x1_0000_0000_0000_0000_0000_0000_0000_0000,
{
    vstd::arithmetic::power2::lemma2_to64();
    vstd::arithmetic::power2::lemma_pow2_adds(64, 64);
    assert(0x1_0000_0000_0000_0000 * 0x1_0000_0000_0000_0000
        == 0x1_0000_0000_0000_0000_0000_0000_0000_0000) by (nonlinear_arith);
}

/// Subtracting a multiple of `p` leaves the residue.
proof fn lemma_less_multiple(x: int, k: int)
    ensures
        (x - k * P) % (P as int) == x % (P as int),
        (x + k * P) % (P as int) == x % (P as int),
{
    vstd::arithmetic::div_mod::lemma_mod_multiples_vanish(-k, x, P as int);
    vstd::arithmetic::div_mod::lemma_mod_multiples_vanish(k, x, P as int);
    assert((P as int) * (-k) == -(k * P)) by (nonlinear_arith);
    assert((P as int) * k == k * P) by (nonlinear_arith);
}

/// Conditional subtractions of `2^i p`, from the largest multiple down, bring a
/// number at most `bound` below `p`.
#[verifier::rlimit(60)]
fn subtract_multiples<T: CircuitTrait>(b: &mut T, x: Vec<usize>, bound: u128, width: usize) -> (r: Vec<
    usize,
>)
    requires
        old(b).inv(),
        netlist::below(x@, old(b)@.next),
        x@.len() == width,
        width <= 120,
        bound < pow2(width as nat),
    ensures
        final(b).inv(),
        netlist::ext(old(b)@, final(b)@),
        netlist::below(r@, final(b)@.next),
        r@.len() == width,
        forall|env: Env| #[trigger]
            netlist::bits(final(b)@, env, r@).len() == width && (koala_bits::num(old(b)@, env, x@)
                <= bound ==> koala_bits::num(final(b)@, env, r@) == koala_bits::num(
                old(b)@,
                env,
                x@,
            ) % (P as int)),
{
    let ghost first = b@;
    let p: u128 = P as u128;
    let multiples = bound / p;
    let mut i: usize = 0;
    let mut c: u128 = p;
    let ghost mut weight: int = 1;
    if multiples > 0 {
        let top = bit_width(multiples);
        proof {
            vstd::arithmetic::power2::lemma2_to64();
            assert(top > 0);
            vstd::arithmetic::div_mod::lemma_fundamental_div_mod(bound as int, p as int);
            assert(p * multiples >= p) by (nonlinear_arith)
                requires
                    multiples >= 1,
                    p >= 0,
            ;
        }
        while i + 1 < top
            invariant
                i < top,
                p == P,
                c == p * weight,
                weight == pow2(i as nat),
                pow2((top - 1) as nat) <= multiples,
                multiples == bound / p,
                c <= bound,
            decreases top - i,
        {
            proof {
                lemma_pow2_unfold((i + 1) as nat);
                if i + 1 < top - 1 {
                    vstd::arithmetic::power2::lemma_pow2_strictly_increases(
                        (i + 1) as nat,
                        (top - 1) as nat,
                    );
                }
                weight = 2 * weight;
                assert(p * weight <= p * multiples) by (nonlinear_arith)
                    requires
                        weight <= multiples,
                        p >= 0,
                ;
                vstd::arithmetic::div_mod::lemma_fundamental_div_mod(bound as int, p as int);
                assert(p * weight == 2 * c) by (nonlinear_arith)
                    requires
                        c == p * (weight / 2),
                        weight == 2 * (weight / 2),
                ;
            }
            c = c * 2;
            i = i + 1;
        }
    }
    let mut r = x;
    let mut r_bound: u128 = bound;
    proof {
        netlist::lemma_ext_refl(first);
        vstd::arithmetic::power2::lemma2_to64();
        lemma_pow2_unfold((i + 1) as nat);
        vstd::arithmetic::div_mod::lemma_fundamental_div_mod(bound as int, p as int);
        assert(bound < 2 * c) by {
            if multiples > 0 {
                assert(multiples + 1 <= 2 * weight);
                assert(p * (multiples + 1) <= p * (2 * weight)) by (nonlinear_arith)
                    requires
                        multiples + 1 <= 2 * weight,
                        p >= 0,
                ;
                assert(p * (multiples + 1) == p * multiples + p) by (nonlinear_arith);
                assert(p * (2 * weight) == 2 * (p * weight)) by (nonlinear_arith);
            }
        }
        assert forall|env: Env| #[trigger] netlist::bits(b@, env, r@).len() == width && (
        koala_bits::num(first, env, x@) <= bound ==> koala_bits::num(b@, env, r@) <= r_bound
            && koala_bits::num(b@, env, r@) % (P as int) == koala_bits::num(first, env, x@) % (
        P as int)) by {}
    }
    while r_bound >= p
        invariant
            b.inv(),
            netlist::ext(first, b@),
            p == P,
            width <= 120,
            r@.len() == width,
            netlist::below(r@, b@.next),
            r_bound < pow2(width as nat),
            r_bound >= p ==> r_bound < 2 * c && c == p * pow2(i as nat),
            forall|env: Env| #[trigger]
                netlist::bits(b@, env, r@).len() == width && (koala_bits::num(first, env, x@)
                    <= bound ==> koala_bits::num(b@, env, r@) <= r_bound && koala_bits::num(
                    b@,
                    env,
                    r@,
                ) % (P as int) == koala_bits::num(first, env, x@) % (P as int)),
        ensures
            r_bound < p,
        decreases r_bound, i,
    {
        let ghost c0 = b@;
        let ghost r0 = r@;
        let ghost bound0 = r_bound;
        proof {
            lemma_pow2_pos(i as nat);
            assert(c >= p) by (nonlinear_arith)
                requires
                    c == p * pow2(i as nat),
                    pow2(i as nat) >= 1,
                    p >= 0,
            ;
        }
        if c <= r_bound {
            let (d, ok) = sub_const(b, r.as_slice(), c, width);
            let ghost c1 = b@;
            let ghost d0 = d@;
            r = mux_words(b, ok, r.as_slice(), d.as_slice());
            let less = r_bound - c;
            r_bound = if less > c - 1 {
                less
            } else {
                c - 1
            };
            proof {
                assert forall|env: Env| #[trigger] netlist::bits(b@, env, r@).len() == width && (
                koala_bits::num(first, env, x@) <= bound ==> koala_bits::num(b@, env, r@)
                    <= r_bound && koala_bits::num(b@, env, r@) % (P as int) == koala_bits::num(
                    first,
                    env,
                    x@,
                ) % (P as int)) by {
                    assert(netlist::bits(c0, env, r0).len() == width);
                    assert(netlist::bits(c1, env, r0) == netlist::bits(c0, env, r0));
                    assert(netlist::bits(c1, env, r0).take(width as int) =~= netlist::bits(
                        c1,
                        env,
                        r0,
                    ));
                    assert(netlist::bits(c1, env, d0).take(width as int) =~= netlist::bits(
                        c1,
                        env,
                        d0,
                    ));
                    let v = koala_bits::num(c0, env, r0);
                    if koala_bits::num(first, env, x@) <= bound {
                        assert(v <= bound0);
                        assert(netlist::value(c1, env, ok as int) == (v >= c));
                        if v >= c {
                            vstd::arithmetic::div_mod::lemma_small_mod(
                                (v - c) as nat,
                                pow2(width as nat),
                            );
                            assert(koala_bits::num(b@, env, r@) == v - c);
                            lemma_less_multiple(v, pow2(i as nat) as int);
                            assert(c == pow2(i as nat) * P) by (nonlinear_arith)
                                requires
                                    c == p * pow2(i as nat),
                                    p == P,
                            ;
                        } else {
                            assert(koala_bits::num(b@, env, r@) == v);
                        }
                    }
                }
            }
        }
        if i == 0 {
            proof {
                vstd::arithmetic::power2::lemma2_to64();
            }
            break;
        }
        proof {
            lemma_pow2_unfold(i as nat);
            assert(c == 2 * (p * pow2((i - 1) as nat))) by (nonlinear_arith)
                requires
                    c == p * pow2(i as nat),
                    pow2(i as nat) == 2 * pow2((i - 1) as nat),
            ;
        }
        c = c / 2;
        i = i - 1;
    }
    proof {
        assert forall|env: Env| #[trigger] netlist::bits(b@, env, r@).len() == width && (
        koala_bits::num(first, env, x@) <= bound ==> koala_bits::num(b@, env, r@)
            == koala_bits::num(first, env, x@) % (P as int)) by {
            koala_bits::lemma_number_bounds(netlist::bits(b@, env, r@));
            if koala_bits::num(first, env, x@) <= bound {
                vstd::arithmetic::div_mod::lemma_small_mod(
                    koala_bits::num(b@, env, r@) as nat,
                    P as nat,
                );
            }
        }
    }
    r
}

/// A number cut or padded to 31 bits keeps its value when it is below `2^31`.
fn canonical_width<T: CircuitTrait>(b: &mut T, x: Vec<usize>) -> (r: Fp)
    requires
        old(b).inv(),
        netlist::below(x@, old(b)@.next),
    ensures
        final(b).inv(),
        netlist::ext(old(b)@, final(b)@),
        netlist::below(r@, final(b)@.next),
        r@.len() == 31,
        forall|env: Env| #[trigger]
            netlist::bits(final(b)@, env, r@).len() == 31 && (koala_bits::num(old(b)@, env, x@) < P
                ==> koala_bits::num(final(b)@, env, r@) == koala_bits::num(old(b)@, env, x@)),
{
    let ghost first = b@;
    let mut r = x;
    proof {
        netlist::lemma_ext_refl(first);
        b.lemma_inv();
        vstd::arithmetic::power2::lemma2_to64();
    }
    if r.len() > 31 {
        r.truncate(31);
        proof {
            assert(r@ =~= x@.take(31));
            assert forall|env: Env| #[trigger] netlist::bits(b@, env, r@).len() == 31 && (
            koala_bits::num(first, env, x@) < P ==> koala_bits::num(b@, env, r@)
                == koala_bits::num(first, env, x@)) by {
                let s = netlist::bits(first, env, x@);
                assert(netlist::bits(b@, env, r@) =~= s.take(31));
                koala_bits::lemma_number_low(s, 31);
            }
        }
    } else {
        proof {
            assert forall|env: Env| #[trigger] netlist::bits(b@, env, r@).len() == r@.len()
                && koala_bits::num(b@, env, r@) == koala_bits::num(first, env, x@) by {}
        }
        while r.len() < 31
            invariant
                b.inv(),
                b@ == first,
                2 <= first.next,
                r@.len() <= 31,
                netlist::below(r@, b@.next),
                forall|env: Env| #[trigger]
                    netlist::bits(b@, env, r@).len() == r@.len() && koala_bits::num(b@, env, r@)
                        == koala_bits::num(first, env, x@),
            decreases 31 - r@.len(),
        {
            let ghost r0 = r@;
            let z = b.zero();
            r.push(z);
            proof {
                b.lemma_inv();
                assert forall|env: Env| #[trigger] netlist::bits(b@, env, r@).len() == r@.len()
                    && koala_bits::num(b@, env, r@) == koala_bits::num(first, env, x@) by {
                    koala_bits::lemma_bits_push(b@, env, r0, z);
                    netlist::lemma_constants(b@, env);
                    assert(0 * pow2(r0.len()) == 0);
                    assert(netlist::bits(b@, env, r0).len() == r0.len());
                }
            }
        }
    }
    r
}

/// The canonical residue of `pos - neg`.
#[verifier::rlimit(60)]
pub fn reduce<T: CircuitTrait>(b: &mut T, pos: Cols, neg: Cols) -> (r: Fp)
    requires
        old(b).inv(),
        koala_bits::cols_ok(pos.cols@, old(b)@.next),
        koala_bits::cols_ok(neg.cols@, old(b)@.next),
    ensures
        final(b).inv(),
        netlist::ext(old(b)@, final(b)@),
        netlist::below(r@, final(b)@.next),
        r@.len() == 31,
        forall|env: Env| #[trigger]
            netlist::bits(final(b)@, env, r@).len() == 31 && koala_bits::num(final(b)@, env, r@)
                == (koala_bits::total(old(b)@, env, pos.cols@) - koala_bits::total(
                old(b)@,
                env,
                neg.cols@,
            )) % (P as int),
{
    let ghost first = b@;
    let mut plus = pos;
    let mut minus = neg;
    let mut moved = true;
    proof {
        netlist::lemma_ext_refl(first);
        lemma_capacity_sum(plus.cols@, minus.cols@);
    }
    while moved
        invariant
            koala_bits::cols_ok(plus.cols@, first.next),
            koala_bits::cols_ok(minus.cols@, first.next),
            !moved ==> koala_bits::folded(plus.cols@) && koala_bits::folded(minus.cols@),
            koala_bits::capacity(plus.cols@) + koala_bits::capacity(minus.cols@) >= 0,
            forall|env: Env|
                #![trigger koala_bits::total(first, env, plus.cols@)]
                (koala_bits::total(first, env, plus.cols@) - koala_bits::total(
                    first,
                    env,
                    minus.cols@,
                )) % (P as int) == (koala_bits::total(first, env, pos.cols@) - koala_bits::total(
                    first,
                    env,
                    neg.cols@,
                )) % (P as int),
        decreases
            koala_bits::capacity(plus.cols@) + koala_bits::capacity(minus.cols@),
            if moved {
                1int
            } else {
                0int
            },
    {
        let ghost p0 = plus.cols@;
        let ghost m0 = minus.cols@;
        let up = fold_side(&mut plus, &mut minus, Ghost(first.next));
        let ghost p1 = plus.cols@;
        let ghost m1 = minus.cols@;
        let down = fold_side(&mut minus, &mut plus, Ghost(first.next));
        moved = up || down;
        proof {
            lemma_capacity_sum(plus.cols@, minus.cols@);
            assert forall|env: Env|
                #![trigger koala_bits::total(first, env, plus.cols@)]
                (koala_bits::total(first, env, plus.cols@) - koala_bits::total(
                    first,
                    env,
                    minus.cols@,
                )) % (P as int) == (koala_bits::total(first, env, pos.cols@) - koala_bits::total(
                    first,
                    env,
                    neg.cols@,
                )) % (P as int) by {
                let (a, c) = (
                    koala_bits::total(first, env, p0),
                    koala_bits::total(first, env, m0),
                );
                let (d, e) = (
                    koala_bits::total(first, env, p1),
                    koala_bits::total(first, env, m1),
                );
                let (f, g) = (
                    koala_bits::total(first, env, plus.cols@),
                    koala_bits::total(first, env, minus.cols@),
                );
                assert((d - e) % (P as int) == (a - c) % (P as int));
                assert((g - f) % (P as int) == (e - d) % (P as int));
                lemma_opposite(g, f, e, d);
            }
        }
    }
    let p: u128 = P as u128;
    let max_pos = plus.bound();
    let max_neg = minus.bound();
    let sum_pos = plus.compress(b);
    let ghost c1 = b@;
    let sum_neg = minus.compress(b);
    let ghost c2 = b@;
    // pos + k p - neg is not negative.
    let k: u128 = (max_neg + (p - 1)) / p;
    proof {
        vstd::arithmetic::div_mod::lemma_fundamental_div_mod(
            (max_neg + (p - 1)) as int,
            p as int,
        );
        assert(p * k == k * p) by (nonlinear_arith);
        assert(k * p >= max_neg);
        assert(k * p <= max_neg + p);
    }
    let extra: u128 = k * p;
    let bound: u128 = max_pos + extra;
    let width = bit_width(bound);
    proof {
        if width > 120 {
            lemma_pow2_100();
            vstd::arithmetic::power2::lemma_pow2_strictly_increases(
                100,
                (width - 1) as nat,
            );
        }
    }
    let shifted = add_const(b, sum_pos.as_slice(), extra, width);
    let ghost c3 = b@;
    let diff = sub_words(b, shifted.as_slice(), sum_neg.as_slice(), width);
    let ghost c4 = b@;
    let less = subtract_multiples(b, diff, bound, width);
    let ghost c5 = b@;
    let r = canonical_width(b, less);
    proof {
        assert forall|env: Env| #[trigger] netlist::bits(b@, env, r@).len() == 31
            && koala_bits::num(b@, env, r@) == (koala_bits::total(first, env, pos.cols@)
            - koala_bits::total(first, env, neg.cols@)) % (P as int) by {
            let (u, v) = (
                koala_bits::total(first, env, plus.cols@),
                koala_bits::total(first, env, minus.cols@),
            );
            koala_bits::lemma_total_bounds(first, env, plus.cols@);
            koala_bits::lemma_total_bounds(first, env, minus.cols@);
            koala_bits::lemma_total_ext(first, c1, env, minus.cols@);
            assert(netlist::bits(c1, env, sum_pos@).len() == sum_pos@.len());
            assert(koala_bits::num(c1, env, sum_pos@) == u);
            assert(netlist::bits(c2, env, sum_pos@) == netlist::bits(c1, env, sum_pos@));
            assert(netlist::bits(c2, env, sum_neg@).len() == sum_neg@.len());
            assert(koala_bits::num(c2, env, sum_neg@) == v);
            assert(netlist::bits(c3, env, sum_neg@) == netlist::bits(c2, env, sum_neg@));
            assert(netlist::bits(c3, env, shifted@).len() == width);
            vstd::arithmetic::div_mod::lemma_small_mod(
                (u + extra) as nat,
                pow2(width as nat),
            );
            assert(koala_bits::num(c3, env, shifted@) == u + extra);
            assert(netlist::bits(c4, env, diff@).len() == width);
            let w = u + extra - v;
            assert(koala_bits::num(c4, env, diff@) == w);
            assert(netlist::bits(c5, env, less@).len() == width);
            assert(koala_bits::num(c5, env, less@) == w % (P as int));
            lemma_less_multiple(u - v, k as int);
            assert(w == (u - v) + k * P);
        }
    }
    r
}

proof fn lemma_capacity_sum(a: Seq<Vec<usize>>, b: Seq<Vec<usize>>)
    ensures
        koala_bits::capacity(a) + koala_bits::capacity(b) >= 0,
{
    let some = Netlist { next: 2, inputs: 0, gates: Seq::empty(), told: Map::empty() };
    koala_bits::lemma_total_bounds(some, |i: int| false, a);
    koala_bits::lemma_total_bounds(some, |i: int| false, b);
}

/// Equal residues of differences taken the other way round.
proof fn lemma_opposite(a: int, b: int, c: int, d: int)
    requires
        (a - b) % (P as int) == (c - d) % (P as int),
    ensures
        (b - a) % (P as int) == (d - c) % (P as int),
{
    let p = P as int;
    let (x, y) = (a - b, c - d);
    assert(x == p * (x / p) + x % p) by {
        vstd::arithmetic::div_mod::lemma_fundamental_div_mod(x, p);
    }
    assert(y == p * (y / p) + y % p) by {
        vstd::arithmetic::div_mod::lemma_fundamental_div_mod(y, p);
    }
    let q = y / p - x / p;
    assert(-x == p * q + (-y)) by (nonlinear_arith)
        requires
            x == p * (x / p) + x % p,
            y == p * (y / p) + y % p,
            x % p == y % p,
            q == y / p - x / p,
    ;
    vstd::arithmetic::div_mod::lemma_mod_multiples_vanish(q, -y, p);
}

proof fn lemma_pow2_100()
    ensures
        pow2(100) == 0x10_0000_0000_0000_0000_0000_0000,
{
    vstd::arithmetic::power2::lemma2_to64();
    vstd::arithmetic::power2::lemma_pow2_adds(64, 32);
    vstd::arithmetic::power2::lemma_pow2_adds(96, 4);
    assert(0x1_0000_0000_0000_0000 * 0x1_0000_0000 == 0x1_0000_0000_0000_0000_0000_0000)
        by (nonlinear_arith);
}

// ---------------------------------------------------------------------------
// Field operations.
// ---------------------------------------------------------------------------

/// Wires of an element.
pub open spec fn fp_ok(x: Seq<usize>, n: nat) -> bool {
    x.len() == 31 && netlist::below(x, n)
}

/// The element on wires.
pub open spec fn elem(c: Netlist, env: Env, x: Seq<usize>) -> int {
    koala_bits::num(c, env, x)
}

proof fn lemma_two_powers()
    ensures
        pow2(31) == 0x8000_0000,
        pow2(32) == 0x1_0000_0000,
        pow2(33) == 0x2_0000_0000,
{
    vstd::arithmetic::power2::lemma2_to64();
    lemma_pow2_unfold(33);
}

/// A constant, below `2^31`.
pub fn constant<T: CircuitTrait>(b: &mut T, v: u32) -> (r: Fp)
    requires
        old(b).inv(),
        v < 0x8000_0000,
    ensures
        final(b).inv(),
        final(b)@ == old(b)@,
        fp_ok(r@, final(b)@.next),
        forall|env: Env| #[trigger]
            netlist::bits(final(b)@, env, r@).len() == 31 && elem(final(b)@, env, r@) == v,
{
    let ghost first = b@;
    let mut r: Fp = Vec::new();
    let mut rest: u32 = v;
    let ghost mut part: int = 0;
    proof {
        b.lemma_inv();
        vstd::arithmetic::power2::lemma2_to64();
    }
    while r.len() < 31
        invariant
            b.inv(),
            b@ == first,
            2 <= first.next,
            r@.len() <= 31,
            netlist::below(r@, first.next),
            v == part + pow2(r@.len()) * rest,
            0 <= part < pow2(r@.len()),
            forall|env: Env| #[trigger]
                netlist::bits(first, env, r@).len() == r@.len() && elem(first, env, r@) == part,
        decreases 31 - r@.len(),
    {
        let ghost r0 = r@;
        let ghost rest0 = rest;
        let ghost part0 = part;
        let set = rest % 2 == 1;
        let w = if set {
            b.one()
        } else {
            b.zero()
        };
        rest = rest / 2;
        r.push(w);
        proof {
            b.lemma_inv();
            let q = pow2(r0.len()) as int;
            lemma_pow2_unfold(r0.len() + 1);
            let u = koala_bits::unit(set);
            part = part0 + u * q;
            assert(rest0 == 2 * rest + u);
            assert(q * rest0 == u * q + (2 * q) * rest) by (nonlinear_arith)
                requires
                    rest0 == 2 * rest + u,
            ;
            assert(0 <= u * q <= q) by (nonlinear_arith)
                requires
                    0 <= u <= 1,
                    q >= 0,
            ;
            assert forall|env: Env| #[trigger] netlist::bits(first, env, r@).len() == r@.len()
                && elem(first, env, r@) == part by {
                koala_bits::lemma_bits_push(first, env, r0, w);
                netlist::lemma_constants(first, env);
                assert(netlist::bits(first, env, r0).len() == r0.len());
            }
        }
    }
    proof {
        assert(rest == 0) by (nonlinear_arith)
            requires
                v == part + pow2(r@.len()) * rest,
                part >= 0,
                v < 0x8000_0000,
                pow2(r@.len()) == 0x8000_0000,
                rest >= 0,
        ;
        assert(pow2(31) * 0 == 0);
        netlist::lemma_ext_refl(first);
    }
    r
}

/// A 32-bit number below `2p`, less `p` if it reaches it.
fn reduce_once<T: CircuitTrait>(b: &mut T, s: Vec<usize>) -> (r: Fp)
    requires
        old(b).inv(),
        netlist::below(s@, old(b)@.next),
        31 <= s@.len() <= 32,
    ensures
        final(b).inv(),
        netlist::ext(old(b)@, final(b)@),
        fp_ok(r@, final(b)@.next),
        forall|env: Env| #[trigger]
            netlist::bits(final(b)@, env, r@).len() == 31 && (koala_bits::num(old(b)@, env, s@) < 2
                * P ==> elem(final(b)@, env, r@) == koala_bits::num(old(b)@, env, s@) % (P as int)),
        netlist::within(old(b)@, final(b)@, 65),
{
    let ghost first = b@;
    proof {
        lemma_two_powers();
    }
    let (d, ok) = sub_const(b, s.as_slice(), P as u128, 32);
    let ghost c1 = b@;
    let m = mux_words(b, ok, s.as_slice(), d.as_slice());
    let ghost c2 = b@;
    let mut r = m;
    r.truncate(31);
    proof {
        let n = m@.len() as int;
        assert(r@ =~= m@.take(31));
        assert forall|env: Env| #[trigger] netlist::bits(b@, env, r@).len() == 31 && (
        koala_bits::num(first, env, s@) < 2 * P ==> elem(b@, env, r@) == koala_bits::num(
            first,
            env,
            s@,
        ) % (P as int)) by {
            let v = koala_bits::num(first, env, s@);
            let sb = netlist::bits(first, env, s@);
            koala_bits::lemma_number_bounds(sb);
            if v < 2 * P {
                assert(netlist::bits(c1, env, s@) == sb);
                let db = netlist::bits(c1, env, d@);
                assert(netlist::value(c1, env, ok as int) == (v >= P));
                let mb = netlist::bits(c2, env, m@);
                assert(netlist::bits(b@, env, r@) =~= mb.take(31));
                if v >= P {
                    vstd::arithmetic::div_mod::lemma_small_mod((v - P) as nat, pow2(32));
                    assert(koala_bits::num(c1, env, d@) == v - P);
                    assert(mb == db.take(n));
                    assert(mb.take(31) =~= db.take(31));
                    koala_bits::lemma_number_low(db, 31);
                } else {
                    assert(mb == sb.take(n));
                    assert(mb.take(31) =~= sb.take(31));
                    koala_bits::lemma_number_low(sb, 31);
                }
            }
        }
    }
    r
}

/// `x + y mod p`: a 32-bit sum, then one conditional subtraction of `p`.
pub fn add<T: CircuitTrait>(b: &mut T, x: &Fp, y: &Fp) -> (r: Fp)
    requires
        old(b).inv(),
        fp_ok(x@, old(b)@.next),
        fp_ok(y@, old(b)@.next),
    ensures
        final(b).inv(),
        netlist::ext(old(b)@, final(b)@),
        fp_ok(r@, final(b)@.next),
        forall|env: Env| #[trigger]
            netlist::bits(final(b)@, env, r@).len() == 31 && (elem(old(b)@, env, x@) < P && elem(
                old(b)@,
                env,
                y@,
            ) < P ==> elem(final(b)@, env, r@) == field::plus(
                elem(old(b)@, env, x@),
                elem(old(b)@, env, y@),
            )),
        netlist::within(old(b)@, final(b)@, 96),
{
    let ghost first = b@;
    let mut cols = Cols::from_bits(x.as_slice());
    let other = Cols::from_bits(y.as_slice());
    let ghost xs = cols.cols@;
    let ghost n = b@.next;
    assert(koala_bits::cols_ok(other.cols@, n));
    assert(koala_bits::cols_ok(cols.cols@, n));
    add_columns(&mut cols, &other);
    let s = cols.compress(b);
    let ghost c1 = b@;
    let mut t = s;
    t.truncate(32);
    proof {
        assert(cols.cols@.last() == cols.cols@[30]);
        if s@.len() <= 32 {
            assert(t@ =~= s@);
        } else {
            assert(t@ =~= s@.take(32));
        }
    }
    let r = reduce_once(b, t);
    proof {
        lemma_two_powers();
        assert forall|env: Env| #[trigger] netlist::bits(b@, env, r@).len() == 31 && (elem(
            first,
            env,
            x@,
        ) < P && elem(first, env, y@) < P ==> elem(b@, env, r@) == field::plus(
            elem(first, env, x@),
            elem(first, env, y@),
        )) by {
            assert(koala_bits::total(first, env, cols.cols@) == koala_bits::num(first, env, x@)
                + koala_bits::num(first, env, y@));
            let sb = netlist::bits(c1, env, s@);
            assert(sb.len() == s@.len());
            assert(koala_bits::num(c1, env, s@) == koala_bits::total(first, env, cols.cols@));
            if elem(first, env, x@) < P && elem(first, env, y@) < P {
                if s@.len() > 32 {
                    assert(netlist::bits(c1, env, t@) =~= sb.take(32));
                    koala_bits::lemma_number_low(sb, 32);
                }
            }
        }
    }
    r
}

/// The bits of `other` join those of `cols`, every column of which stays filled.
fn add_columns(cols: &mut Cols, other: &Cols)
    requires
        old(cols).cols@.len() == 31,
        other.cols@.len() == 31,
        forall|j: int| 0 <= j < 31 ==> (#[trigger] old(cols).cols@[j])@.len() == 1,
        forall|j: int| 0 <= j < 31 ==> (#[trigger] other.cols@[j])@.len() == 1,
    ensures
        final(cols).cols@.len() == 31,
        final(cols).cols@[30]@.len() > 0,
        koala_bits::narrow(final(cols).cols@),
        forall|c: Netlist, env: Env| #[trigger]
            koala_bits::total(c, env, final(cols).cols@) == koala_bits::total(
                c,
                env,
                old(cols).cols@,
            ) + koala_bits::total(c, env, other.cols@),
        forall|n: nat| #[trigger]
            koala_bits::cols_ok(final(cols).cols@, n) <== koala_bits::cols_ok(old(cols).cols@, n)
                && koala_bits::cols_ok(other.cols@, n),
{
    let ghost start = cols.cols@;
    let mut j: usize = 0;
    proof {
        vstd::arithmetic::power2::lemma2_to64();
        assert forall|c: Netlist, env: Env| #[trigger] koala_bits::total(c, env, cols.cols@)
            == koala_bits::total(c, env, start) + koala_bits::total(
            c,
            env,
            other.cols@.take(0),
        ) by {}
    }
    while j < 31
        invariant
            j <= 31,
            cols.cols@.len() == 31,
            other.cols@.len() == 31,
            forall|k: int| 0 <= k < 31 ==> (#[trigger] cols.cols@[k])@.len() > 0,
            forall|k: int| 0 <= k < j ==> (#[trigger] cols.cols@[k])@.len() <= 2,
            forall|k: int| j <= k < 31 ==> (#[trigger] cols.cols@[k])@.len() == 1,
            forall|k: int| 0 <= k < 31 ==> (#[trigger] other.cols@[k])@.len() == 1,
            forall|c: Netlist, env: Env| #[trigger]
                koala_bits::total(c, env, cols.cols@) == koala_bits::total(c, env, start)
                    + koala_bits::total(c, env, other.cols@.take(j as int)),
            forall|n: nat| #[trigger]
                koala_bits::cols_ok(cols.cols@, n) <== koala_bits::cols_ok(start, n)
                    && koala_bits::cols_ok(other.cols@, n),
        decreases 31 - j,
    {
        let ghost before = cols.cols@;
        assert(other.cols@[j as int]@.len() == 1);
        let w = other.cols[j][0];
        cols.push(j, w);
        proof {
            assert forall|c: Netlist, env: Env| #[trigger] koala_bits::total(c, env, cols.cols@)
                == koala_bits::total(c, env, start) + koala_bits::total(
                c,
                env,
                other.cols@.take(j + 1),
            ) by {
                koala_bits::lemma_take_column(c, env, other.cols@, j as int);
                let o = other.cols@[j as int]@;
                assert(o =~= Seq::<usize>::empty().push(w));
                koala_bits::lemma_bits_push(c, env, Seq::<usize>::empty(), w);
                assert(koala_bits::ones(netlist::bits(c, env, Seq::<usize>::empty())) == 0);
                assert(koala_bits::total(c, env, before) == koala_bits::total(c, env, start)
                    + koala_bits::total(c, env, other.cols@.take(j as int)));
            }
            assert forall|n: nat|
                koala_bits::cols_ok(start, n) && koala_bits::cols_ok(other.cols@, n) implies
                #[trigger] koala_bits::cols_ok(cols.cols@, n) by {
                assert(netlist::below(other.cols@[j as int]@, n));
                assert(koala_bits::cols_ok(before, n));
            }
            assert forall|k: int| 0 <= k < 31 implies (#[trigger] cols.cols@[k])@.len() > 0 by {
                assert(before[k]@.len() > 0);
            }
        }
        j = j + 1;
    }
    assert(other.cols@.take(31) =~= other.cols@);
}

/// `x - y mod p`.
pub fn sub<T: CircuitTrait>(b: &mut T, x: &Fp, y: &Fp) -> (r: Fp)
    requires
        old(b).inv(),
        fp_ok(x@, old(b)@.next),
        fp_ok(y@, old(b)@.next),
    ensures
        final(b).inv(),
        netlist::ext(old(b)@, final(b)@),
        fp_ok(r@, final(b)@.next),
        forall|env: Env| #[trigger]
            netlist::bits(final(b)@, env, r@).len() == 31 && (elem(old(b)@, env, x@) < P && elem(
                old(b)@,
                env,
                y@,
            ) < P ==> elem(final(b)@, env, r@) == field::minus(
                elem(old(b)@, env, x@),
                elem(old(b)@, env, y@),
            )),
        netlist::within(old(b)@, final(b)@, 129),
{
    // x - y + p, then less p if that reaches p (that is, if x >= y).
    let ghost first = b@;
    let xp = add_const(b, x.as_slice(), P as u128, 32);
    let ghost c1 = b@;
    let d = sub_words(b, xp.as_slice(), y.as_slice(), 32);
    let ghost c2 = b@;
    let r = reduce_once(b, d);
    proof {
        lemma_two_powers();
        assert forall|env: Env| #[trigger] netlist::bits(b@, env, r@).len() == 31 && (elem(
            first,
            env,
            x@,
        ) < P && elem(first, env, y@) < P ==> elem(b@, env, r@) == field::minus(
            elem(first, env, x@),
            elem(first, env, y@),
        )) by {
            let (u, v) = (elem(first, env, x@), elem(first, env, y@));
            koala_bits::lemma_number_bounds(netlist::bits(first, env, x@));
            koala_bits::lemma_number_bounds(netlist::bits(first, env, y@));
            if u < P && v < P {
                assert(netlist::bits(c1, env, xp@).len() == 32);
                assert(koala_bits::num(c1, env, xp@) == u + P);
                assert(netlist::bits(c1, env, y@) == netlist::bits(first, env, y@));
                assert(netlist::bits(c2, env, d@).len() == 32);
                assert(koala_bits::num(c2, env, d@) == u + P - v);
                lemma_less_multiple(u - v, 1);
            }
        }
    }
    r
}

/// `2x mod p`.
pub fn double<T: CircuitTrait>(b: &mut T, x: &Fp) -> (r: Fp)
    requires
        old(b).inv(),
        fp_ok(x@, old(b)@.next),
    ensures
        final(b).inv(),
        netlist::ext(old(b)@, final(b)@),
        fp_ok(r@, final(b)@.next),
        forall|env: Env| #[trigger]
            netlist::bits(final(b)@, env, r@).len() == 31 && (elem(old(b)@, env, x@) < P ==> elem(
                final(b)@,
                env,
                r@,
            ) == (2 * elem(old(b)@, env, x@)) % (P as int)),
        netlist::within(old(b)@, final(b)@, 65),
{
    let ghost first = b@;
    let mut s: Vec<usize> = Vec::new();
    let z = b.zero();
    s.push(z);
    let mut i: usize = 0;
    proof {
        b.lemma_inv();
    }
    while i < 31
        invariant
            i <= 31,
            x@.len() == 31,
            s@ == seq![z] + x@.take(i as int),
        decreases 31 - i,
    {
        s.push(x[i]);
        assert(s@ =~= seq![z] + x@.take(i + 1));
        i = i + 1;
    }
    assert(x@.take(31) =~= x@);
    let r = reduce_once(b, s);
    proof {
        assert forall|env: Env| #[trigger] netlist::bits(b@, env, r@).len() == 31 && (elem(
            first,
            env,
            x@,
        ) < P ==> elem(b@, env, r@) == (2 * elem(first, env, x@)) % (P as int)) by {
            netlist::lemma_constants(first, env);
            let sb = netlist::bits(first, env, s@);
            koala_bits::lemma_number_cut(sb, 1);
            assert(sb.skip(1) =~= netlist::bits(first, env, x@));
            assert(sb.take(1).drop_last() =~= Seq::<bool>::empty());
            assert(koala_bits::number(sb.take(1)) == 0) by {
                assert(sb.take(1).last() == false);
                assert(koala_bits::number(Seq::<bool>::empty()) == 0);
                assert(0 * pow2(0) == 0);
            }
            vstd::arithmetic::power2::lemma2_to64();
        }
    }
    r
}

/// `x / 2`: `x >> 1` if even, `(x + p) >> 1` if odd.
#[verifier::rlimit(30)]
pub fn halve<T: CircuitTrait>(b: &mut T, x: &Fp) -> (r: Fp)
    requires
        old(b).inv(),
        fp_ok(x@, old(b)@.next),
    ensures
        final(b).inv(),
        netlist::ext(old(b)@, final(b)@),
        fp_ok(r@, final(b)@.next),
        forall|env: Env| #[trigger]
            netlist::bits(final(b)@, env, r@).len() == 31 && (elem(old(b)@, env, x@) < P ==> elem(
                final(b)@,
                env,
                r@,
            ) == field::times(elem(old(b)@, env, x@), field::half())),
        netlist::within(old(b)@, final(b)@, 63),
{
    let ghost first = b@;
    let xp = add_const(b, x.as_slice(), P as u128, 32);
    let ghost c1 = b@;
    let mut even: Vec<usize> = Vec::new();
    let mut odd: Vec<usize> = Vec::new();
    let mut i: usize = 1;
    while i < 31
        invariant
            1 <= i <= 31,
            x@.len() == 31,
            even@ == x@.subrange(1, i as int),
        decreases 31 - i,
    {
        even.push(x[i]);
        assert(even@ =~= x@.subrange(1, i + 1));
        i = i + 1;
    }
    let z = b.zero();
    even.push(z);
    let mut k: usize = 1;
    while k < 32
        invariant
            1 <= k <= 32,
            xp@.len() == 32,
            odd@ == xp@.subrange(1, k as int),
        decreases 32 - k,
    {
        odd.push(xp[k]);
        assert(odd@ =~= xp@.subrange(1, k + 1));
        k = k + 1;
    }
    proof {
        b.lemma_inv();
    }
    let r = mux_words(b, x[0], even.as_slice(), odd.as_slice());
    proof {
        lemma_two_powers();
        vstd::arithmetic::power2::lemma2_to64();
        assert forall|env: Env| #[trigger] netlist::bits(b@, env, r@).len() == 31 && (elem(
            first,
            env,
            x@,
        ) < P ==> elem(b@, env, r@) == field::times(elem(first, env, x@), field::half())) by {
            let xb = netlist::bits(first, env, x@);
            let v = elem(first, env, x@);
            koala_bits::lemma_number_bounds(xb);
            netlist::lemma_constants(c1, env);
            assert(netlist::bits(c1, env, x@) == xb);
            assert(netlist::bits(c1, env, xp@).len() == 32);
            let pb = netlist::bits(c1, env, xp@);
            let eb = netlist::bits(c1, env, even@);
            let ob = netlist::bits(c1, env, odd@);
            koala_bits::lemma_number_low(xb, 1);
            koala_bits::lemma_number_low(pb, 1);
            assert(ob =~= pb.skip(1));
            assert(ob.take(31) =~= ob);
            assert(eb.take(31) =~= eb);
            let eh = xb.skip(1);
            assert(eb =~= eh.push(false));
            koala_bits::lemma_number_push(eh, false);
            assert(0 * pow2(eh.len()) == 0);
            assert(xb.take(1).drop_last() =~= Seq::<bool>::empty());
            assert(koala_bits::number(xb.take(1)) == koala_bits::unit(xb[0])) by {
                assert(koala_bits::number(Seq::<bool>::empty()) == 0);
                assert(xb.take(1).last() == xb[0]);
                assert(koala_bits::unit(xb[0]) * pow2(0) == koala_bits::unit(xb[0]));
            }
            if v < P {
                assert(koala_bits::num(c1, env, xp@) == v + P);
                let h = elem(b@, env, r@);
                if xb[0] {
                    assert(v % 2 == 1);
                    assert(h == (v + P) / 2);
                    field::law_half(v, h);
                } else {
                    assert(v % 2 == 0);
                    assert(h == v / 2);
                    field::law_half(v, h);
                }
            }
        }
    }
    r
}

/// The partial products of `x y`, as columns.
#[verifier::rlimit(60)]
fn mul_cols<T: CircuitTrait>(b: &mut T, x: &[usize], y: &[usize]) -> (cols: Cols)
    requires
        old(b).inv(),
        netlist::below(x@, old(b)@.next),
        netlist::below(y@, old(b)@.next),
        x@.len() + y@.len() < usize::MAX,
    ensures
        final(b).inv(),
        netlist::ext(old(b)@, final(b)@),
        koala_bits::cols_ok(cols.cols@, final(b)@.next),
        cols.cols@.len() <= x@.len() + y@.len(),
        forall|env: Env| #[trigger]
            koala_bits::total(final(b)@, env, cols.cols@) == koala_bits::num(old(b)@, env, x@)
                * koala_bits::num(old(b)@, env, y@),
{
    let ghost first = b@;
    let mut cols = Cols::default();
    let n = x.len();
    let m = y.len();
    let mut i: usize = 0;
    proof {
        netlist::lemma_ext_refl(first);
        assert forall|env: Env| #[trigger] koala_bits::total(b@, env, cols.cols@)
            == koala_bits::number(netlist::bits(first, env, x@).take(0)) * koala_bits::num(
            first,
            env,
            y@,
        ) by {
            assert(0 * koala_bits::num(first, env, y@) == 0);
        }
    }
    while i < n
        invariant
            b.inv(),
            netlist::ext(first, b@),
            netlist::below(x@, first.next),
            netlist::below(y@, first.next),
            i <= n,
            n == x@.len(),
            m == y@.len(),
            n + m < usize::MAX,
            koala_bits::cols_ok(cols.cols@, b@.next),
            cols.cols@.len() <= n + m,
            forall|env: Env| #[trigger]
                koala_bits::total(b@, env, cols.cols@) == koala_bits::number(
                    netlist::bits(first, env, x@).take(i as int),
                ) * koala_bits::num(first, env, y@),
        decreases n - i,
    {
        let xi = x[i];
        let ghost c0 = b@;
        let ghost before = cols.cols@;
        let ghost wi = pow2(i as nat) as int;
        let mut j: usize = 0;
        proof {
            netlist::lemma_ext_refl(c0);
            assert forall|env: Env| #[trigger] koala_bits::total(b@, env, cols.cols@)
                == koala_bits::total(c0, env, before) + koala_bits::unit(
                netlist::value(first, env, xi as int),
            ) * (wi * koala_bits::number(netlist::bits(first, env, y@).take(0))) by {
                assert(wi * 0 == 0);
            }
        }
        while j < m
            invariant
                b.inv(),
                netlist::ext(first, c0),
                netlist::ext(c0, b@),
                netlist::below(x@, first.next),
                netlist::below(y@, first.next),
                i < n,
                n == x@.len(),
                xi == x@[i as int],
                j <= m,
                m == y@.len(),
                n + m < usize::MAX,
                wi == pow2(i as nat),
                koala_bits::cols_ok(cols.cols@, b@.next),
                cols.cols@.len() <= n + m,
                forall|env: Env| #[trigger]
                    koala_bits::total(b@, env, cols.cols@) == koala_bits::total(c0, env, before)
                        + koala_bits::unit(netlist::value(first, env, xi as int)) * (wi
                        * koala_bits::number(netlist::bits(first, env, y@).take(j as int))),
            decreases m - j,
        {
            let ghost c1 = b@;
            let ghost now = cols.cols@;
            let yj = y[j];
            let w = b.and_wire(xi, yj);
            cols.push(i + j, w);
            proof {
                assert forall|env: Env| #[trigger] koala_bits::total(b@, env, cols.cols@)
                    == koala_bits::total(c0, env, before) + koala_bits::unit(
                    netlist::value(first, env, xi as int),
                ) * (wi * koala_bits::number(netlist::bits(first, env, y@).take(j + 1))) by {
                    koala_bits::lemma_bits_take(first, env, y@, j as int);
                    koala_bits::lemma_total_ext(c1, b@, env, now);
                    vstd::arithmetic::power2::lemma_pow2_adds(i as nat, j as nat);
                    let (u, v) = (
                        koala_bits::unit(netlist::value(first, env, xi as int)),
                        koala_bits::unit(netlist::value(first, env, yj as int)),
                    );
                    let t = koala_bits::unit(netlist::value(b@, env, w as int));
                    let wj = pow2(j as nat) as int;
                    let a = koala_bits::number(netlist::bits(first, env, y@).take(j as int));
                    assert(netlist::value(c1, env, xi as int) == netlist::value(
                        first,
                        env,
                        xi as int,
                    ));
                    assert(netlist::value(c1, env, yj as int) == netlist::value(
                        first,
                        env,
                        yj as int,
                    ));
                    assert(t == u * v) by {
                        assert(0 * v == 0 && 1 * v == v);
                    }
                    assert(koala_bits::total(c1, env, now) == koala_bits::total(c0, env, before)
                        + u * (wi * a));
                    assert(u * (wi * (a + v * wj)) == u * (wi * a) + t * (wi * wj))
                        by (nonlinear_arith)
                        requires
                            t == u * v,
                    ;
                }
            }
            j = j + 1;
        }
        proof {
            assert forall|env: Env| #[trigger] koala_bits::total(b@, env, cols.cols@)
                == koala_bits::number(netlist::bits(first, env, x@).take(i + 1)) * koala_bits::num(
                first,
                env,
                y@,
            ) by {
                koala_bits::lemma_bits_take(first, env, x@, i as int);
                assert(netlist::bits(first, env, y@).take(m as int) =~= netlist::bits(
                    first,
                    env,
                    y@,
                ));
                let u = koala_bits::unit(netlist::value(first, env, xi as int));
                let v = koala_bits::num(first, env, y@);
                let a = koala_bits::number(netlist::bits(first, env, x@).take(i as int));
                assert(koala_bits::total(c0, env, before) == a * v);
                assert((a + u * wi) * v == a * v + u * (wi * v)) by (nonlinear_arith);
            }
        }
        i = i + 1;
    }
    proof {
        assert forall|env: Env| #[trigger] koala_bits::total(b@, env, cols.cols@)
            == koala_bits::num(first, env, x@) * koala_bits::num(first, env, y@) by {
            assert(netlist::bits(first, env, x@).take(n as int) =~= netlist::bits(first, env, x@));
        }
    }
    cols
}

/// `x c` for a constant `c`, as columns (no gates).
#[verifier::rlimit(60)]
fn mul_const_cols(x: &[usize], c: u32) -> (cols: Cols)
    requires
        x@.len() < 1000,
    ensures
        forall|k: Netlist, env: Env| #[trigger]
            koala_bits::total(k, env, cols.cols@) == koala_bits::num(k, env, x@) * c,
        forall|n: nat| #[trigger] koala_bits::cols_ok(cols.cols@, n) <== netlist::below(x@, n),
{
    let mut cols = Cols::default();
    let n = x.len();
    let mut rest: u32 = c;
    let ghost mut part: int = 0;
    let mut j: usize = 0;
    proof {
        vstd::arithmetic::power2::lemma2_to64();
        assert forall|k: Netlist, env: Env| #[trigger] koala_bits::total(k, env, cols.cols@)
            == koala_bits::num(k, env, x@) * part by {
            assert(koala_bits::num(k, env, x@) * 0 == 0);
        }
    }
    while j < 32
        invariant
            j <= 32,
            n == x@.len(),
            n < 1000,
            c == part + pow2(j as nat) * rest,
            0 <= part,
            forall|k: Netlist, env: Env| #[trigger]
                koala_bits::total(k, env, cols.cols@) == koala_bits::num(k, env, x@) * part,
            forall|m: nat| #[trigger] koala_bits::cols_ok(cols.cols@, m) <== netlist::below(x@, m),
        decreases 32 - j,
    {
        let ghost rest0 = rest;
        let ghost part0 = part;
        let ghost w = pow2(j as nat) as int;
        let ghost before = cols.cols@;
        let set = rest % 2 == 1;
        rest = rest / 2;
        proof {
            lemma_pow2_unfold((j + 1) as nat);
            let u = koala_bits::unit(set);
            part = part0 + u * w;
            assert(rest0 == 2 * rest + u);
            assert(w * rest0 == u * w + (2 * w) * rest) by (nonlinear_arith)
                requires
                    rest0 == 2 * rest + u,
            ;
            assert(u * w >= 0) by (nonlinear_arith)
                requires
                    u >= 0,
                    w >= 0,
            ;
        }
        if set {
            let mut i: usize = 0;
            proof {
                assert forall|k: Netlist, env: Env| #[trigger] koala_bits::total(k, env, cols.cols@)
                    == koala_bits::total(k, env, before) + koala_bits::number(
                    netlist::bits(k, env, x@).take(0),
                ) * w by {
                    assert(0 * w == 0);
                }
            }
            while i < n
                invariant
                    i <= n,
                    n == x@.len(),
                    n < 1000,
                    j < 32,
                    w == pow2(j as nat),
                    forall|k: Netlist, env: Env| #[trigger]
                        koala_bits::total(k, env, cols.cols@) == koala_bits::total(k, env, before)
                            + koala_bits::number(netlist::bits(k, env, x@).take(i as int)) * w,
                    forall|m: nat| #[trigger]
                        koala_bits::cols_ok(cols.cols@, m) <== netlist::below(x@, m),
                decreases n - i,
            {
                let ghost now = cols.cols@;
                cols.push(i + j, x[i]);
                proof {
                    vstd::arithmetic::power2::lemma_pow2_adds(i as nat, j as nat);
                    assert forall|k: Netlist, env: Env| #[trigger]
                        koala_bits::total(k, env, cols.cols@) == koala_bits::total(k, env, before)
                            + koala_bits::number(netlist::bits(k, env, x@).take(i + 1)) * w by {
                        koala_bits::lemma_bits_take(k, env, x@, i as int);
                        let a = koala_bits::number(netlist::bits(k, env, x@).take(i as int));
                        let u = koala_bits::unit(netlist::value(k, env, x@[i as int] as int));
                        let wi = pow2(i as nat) as int;
                        assert(koala_bits::total(k, env, now) == koala_bits::total(k, env, before)
                            + a * w);
                        assert((a + u * wi) * w == a * w + u * (wi * w)) by (nonlinear_arith);
                    }
                    assert forall|m: nat| netlist::below(x@, m) implies
                        #[trigger] koala_bits::cols_ok(cols.cols@, m) by {
                        assert(koala_bits::cols_ok(now, m));
                    }
                }
                i = i + 1;
            }
            proof {
                assert forall|k: Netlist, env: Env| #[trigger] koala_bits::total(k, env, cols.cols@)
                    == koala_bits::num(k, env, x@) * part by {
                    assert(netlist::bits(k, env, x@).take(n as int) =~= netlist::bits(k, env, x@));
                    let v = koala_bits::num(k, env, x@);
                    assert(koala_bits::total(k, env, before) == v * part0);
                    assert(v * (part0 + 1 * w) == v * part0 + v * w) by (nonlinear_arith);
                }
            }
        } else {
            proof {
                assert(0 * w == 0);
                assert(part == part0);
            }
        }
        j = j + 1;
    }
    proof {
        assert(rest == 0) by (nonlinear_arith)
            requires
                c == part + pow2(j as nat) * rest,
                part >= 0,
                c < 0x1_0000_0000,
                pow2(j as nat) == 0x1_0000_0000,
                rest >= 0,
        ;
        assert(pow2(32) * 0 == 0);
    }
    cols
}

/// `x y mod p`.
pub fn mul<T: CircuitTrait>(b: &mut T, x: &Fp, y: &Fp) -> (r: Fp)
    requires
        old(b).inv(),
        fp_ok(x@, old(b)@.next),
        fp_ok(y@, old(b)@.next),
    ensures
        final(b).inv(),
        netlist::ext(old(b)@, final(b)@),
        fp_ok(r@, final(b)@.next),
        forall|env: Env| #[trigger]
            netlist::bits(final(b)@, env, r@).len() == 31 && elem(final(b)@, env, r@)
                == field::times(elem(old(b)@, env, x@), elem(old(b)@, env, y@)),
{
    let ghost first = b@;
    let cols = mul_cols(b, x.as_slice(), y.as_slice());
    let ghost c1 = b@;
    let none = Cols::default();
    let r = reduce(b, cols, none);
    proof {
        assert forall|env: Env| #[trigger] netlist::bits(b@, env, r@).len() == 31 && elem(
            b@,
            env,
            r@,
        ) == field::times(elem(first, env, x@), elem(first, env, y@)) by {
            assert(koala_bits::total(c1, env, cols.cols@) == koala_bits::num(first, env, x@)
                * koala_bits::num(first, env, y@));
            assert(koala_bits::total(c1, env, none.cols@) == 0);
        }
    }
    r
}

/// `x c mod p` for a constant `c`.
pub fn mul_const<T: CircuitTrait>(b: &mut T, x: &Fp, c: u32) -> (r: Fp)
    requires
        old(b).inv(),
        fp_ok(x@, old(b)@.next),
    ensures
        final(b).inv(),
        netlist::ext(old(b)@, final(b)@),
        fp_ok(r@, final(b)@.next),
        forall|env: Env| #[trigger]
            netlist::bits(final(b)@, env, r@).len() == 31 && elem(final(b)@, env, r@)
                == field::times(elem(old(b)@, env, x@), c as int),
{
    let ghost first = b@;
    let cols = mul_const_cols(x.as_slice(), c);
    let none = Cols::default();
    let r = reduce(b, cols, none);
    proof {
        assert forall|env: Env| #[trigger] netlist::bits(b@, env, r@).len() == 31 && elem(
            b@,
            env,
            r@,
        ) == field::times(elem(first, env, x@), c as int) by {
            assert(koala_bits::total(first, env, cols.cols@) == koala_bits::num(first, env, x@)
                * c);
            assert(koala_bits::total(first, env, none.cols@) == 0);
        }
    }
    r
}

/// Dividing by `2^k` is multiplying by the inverse of `2^k`.
proof fn lemma_shrunk(x: int, k: nat)
    requires
        k > 0,
    ensures
        field::shrunk(x, k) == field::times(x, field::shrunk(1, k)),
    decreases k,
{
    if k == 1 {
        assert(field::shrunk(x, 0) == x);
        assert(field::shrunk(1, 0) == 1);
        assert(field::shrunk(1, 1) == field::times(1, field::half()));
        assert(1 * field::half() == field::half());
        vstd::arithmetic::div_mod::lemma_small_mod(field::half() as nat, P as nat);
    } else {
        lemma_shrunk(x, (k - 1) as nat);
        field::law_times_associates(x, field::shrunk(1, (k - 1) as nat), field::half());
    }
}

/// `x / 2^k`: halvings for small `k`, a constant multiplication otherwise.
#[verifier::rlimit(30)]
pub fn div_2exp<T: CircuitTrait>(b: &mut T, x: &Fp, k: u32) -> (r: Fp)
    requires
        old(b).inv(),
        fp_ok(x@, old(b)@.next),
    ensures
        final(b).inv(),
        netlist::ext(old(b)@, final(b)@),
        fp_ok(r@, final(b)@.next),
        forall|env: Env| #[trigger]
            netlist::bits(final(b)@, env, r@).len() == 31 && (elem(old(b)@, env, x@) < P ==> elem(
                final(b)@,
                env,
                r@,
            ) == field::shrunk(elem(old(b)@, env, x@), k as nat) && elem(final(b)@, env, r@) < P),
{
    let ghost first = b@;
    if k <= 12 {
        let mut acc = copy_fp(x);
        let mut i: u32 = 0;
        proof {
            netlist::lemma_ext_refl(first);
            assert forall|env: Env| #[trigger] netlist::bits(b@, env, acc@).len() == 31 && (elem(
                first,
                env,
                x@,
            ) < P ==> elem(b@, env, acc@) == field::shrunk(elem(first, env, x@), 0) && elem(
                b@,
                env,
                acc@,
            ) < P) by {}
        }
        while i < k
            invariant
                b.inv(),
                netlist::ext(first, b@),
                i <= k,
                fp_ok(acc@, b@.next),
                forall|env: Env| #[trigger]
                    netlist::bits(b@, env, acc@).len() == 31 && (elem(first, env, x@) < P ==> elem(
                        b@,
                        env,
                        acc@,
                    ) == field::shrunk(elem(first, env, x@), i as nat) && elem(b@, env, acc@) < P),
            decreases k - i,
        {
            let ghost c0 = b@;
            let ghost a0 = acc@;
            acc = halve(b, &acc);
            proof {
                assert forall|env: Env| #[trigger] netlist::bits(b@, env, acc@).len() == 31 && (
                elem(first, env, x@) < P ==> elem(b@, env, acc@) == field::shrunk(
                    elem(first, env, x@),
                    (i + 1) as nat,
                ) && elem(b@, env, acc@) < P) by {
                    assert(netlist::bits(c0, env, a0).len() == 31);
                    field::lemma_plus_canonical(elem(c0, env, a0), field::half());
                }
            }
            i = i + 1;
        }
        acc
    } else {
        let inv = field::div_2exp(1, k);
        let r = mul_const(b, x, inv);
        proof {
            assert forall|env: Env| #[trigger] netlist::bits(b@, env, r@).len() == 31 && (elem(
                first,
                env,
                x@,
            ) < P ==> elem(b@, env, r@) == field::shrunk(elem(first, env, x@), k as nat) && elem(
                b@,
                env,
                r@,
            ) < P) by {
                lemma_shrunk(elem(first, env, x@), k as nat);
                field::lemma_plus_canonical(elem(first, env, x@), inv as int);
            }
        }
        r
    }
}

fn copy_fp(x: &Fp) -> (r: Fp)
    ensures
        r@ == x@,
{
    let mut r: Fp = Vec::new();
    let mut i: usize = 0;
    while i < x.len()
        invariant
            i <= x@.len(),
            r@ == x@.take(i as int),
        decreases x@.len() - i,
    {
        r.push(x[i]);
        assert(x@.take(i + 1) =~= x@.take(i as int).push(x@[i as int]));
        i = i + 1;
    }
    assert(x@.take(i as int) =~= x@);
    r
}

/// `x^3`.
pub fn sbox<T: CircuitTrait>(b: &mut T, x: &Fp) -> (r: Fp)
    requires
        old(b).inv(),
        fp_ok(x@, old(b)@.next),
    ensures
        final(b).inv(),
        netlist::ext(old(b)@, final(b)@),
        fp_ok(r@, final(b)@.next),
        forall|env: Env| #[trigger]
            netlist::bits(final(b)@, env, r@).len() == 31 && elem(final(b)@, env, r@)
                == field::cube(elem(old(b)@, env, x@)),
{
    let ghost first = b@;
    let x2 = self::mul(b, x, x);
    let ghost c1 = b@;
    let r = self::mul(b, &x2, x);
    proof {
        assert forall|env: Env| #[trigger] netlist::bits(b@, env, r@).len() == 31 && elem(
            b@,
            env,
            r@,
        ) == field::cube(elem(first, env, x@)) by {
            assert(netlist::bits(c1, env, x2@).len() == 31);
            assert(netlist::bits(c1, env, x@) == netlist::bits(first, env, x@));
        }
    }
    r
}

// ---------------------------------------------------------------------------
// Poseidon2, width 16.
// ---------------------------------------------------------------------------

/// The elements on a list of wires.
pub open spec fn values(c: Netlist, env: Env, xs: Seq<Vec<usize>>) -> Seq<int> {
    Seq::new(xs.len(), |i: int| elem(c, env, xs[i]@))
}

/// Wires of elements.
pub open spec fn fps_ok(xs: Seq<Vec<usize>>, n: nat) -> bool {
    netlist::all_below(xs, 31, n)
}

pub broadcast proof fn lemma_values_ext(a: Netlist, b: Netlist, env: Env, xs: Seq<Vec<usize>>)
    requires
        #[trigger] netlist::ext(a, b),
        fps_ok(xs, a.next),
    ensures
        #[trigger] values(b, env, xs) == values(a, env, xs),
{
    assert forall|i: int| 0 <= i < xs.len() implies values(b, env, xs)[i] == values(
        a,
        env,
        xs,
    )[i] by {
        assert(netlist::below(xs[i]@, a.next));
        netlist::lemma_ext_bits(a, b, env, xs[i]@);
    }
    assert(values(b, env, xs) =~= values(a, env, xs));
}

/// Reducing before adding changes nothing.
proof fn lemma_plus(x: int, y: int)
    ensures
        field::plus(x % (P as int), y % (P as int)) == (x + y) % (P as int),
        field::minus(x % (P as int), y % (P as int)) == (x - y) % (P as int),
{
    vstd::arithmetic::div_mod::lemma_add_mod_noop(x, y, P as int);
    vstd::arithmetic::div_mod::lemma_sub_mod_noop(x, y, P as int);
}

proof fn lemma_small(x: int)
    requires
        0 <= x < P,
    ensures
        x % (P as int) == x,
{
    vstd::arithmetic::div_mod::lemma_small_mod(x as nat, P as nat);
}

proof fn lemma_elem(c: Netlist, env: Env, x: Seq<usize>)
    ensures
        elem(c, env, x) >= 0,
{
    koala_bits::lemma_number_bounds(netlist::bits(c, env, x));
}

/// The block's rows by shared sums.
proof fn lemma_mat4(e: int, f: int, g: int, h: int)
    requires
        field::canonical(e),
        field::canonical(f),
        field::canonical(g),
        field::canonical(h),
    ensures
        ({
            let a = field::plus(e, f);
            let c = field::plus(g, h);
            let t = field::plus(a, c);
            let u = field::plus(t, f);
            let w = field::plus(t, h);
            let (m, n) = ((2 * e) % (P as int), (2 * g) % (P as int));
            &&& field::plus(u, a) == reference::mix4(0, e, f, g, h)
            &&& field::plus(u, n) == reference::mix4(1, e, f, g, h)
            &&& field::plus(w, c) == reference::mix4(2, e, f, g, h)
            &&& field::plus(w, m) == reference::mix4(3, e, f, g, h)
            &&& a < P && c < P && t < P && u < P && w < P && m < P && n < P
        }),
{
    lemma_small(f);
    lemma_small(h);
    let t = e + f + (g + h);
    lemma_plus(e + f, g + h);
    lemma_plus(t, f);
    lemma_plus(t, h);
    lemma_plus(t + f, e + f);
    lemma_plus(t + f, 2 * g);
    lemma_plus(t + h, g + h);
    lemma_plus(t + h, 2 * e);
    assert(t + f + (e + f) == 2 * e + 3 * f + g + h);
    assert(t + f + 2 * g == e + 2 * f + 3 * g + h);
    assert(t + h + (g + h) == e + f + 2 * g + 3 * h);
    assert(t + h + 2 * e == 3 * e + f + g + 2 * h);
}

/// The 4x4 block on four elements.
#[verifier::rlimit(100)]
fn apply_mat4<T: CircuitTrait>(b: &mut T, x: &Vec<Fp>, at: usize) -> (r: (Fp, Fp, Fp, Fp))
    requires
        old(b).inv(),
        x@.len() == 16,
        at + 4 <= 16,
        fps_ok(x@, old(b)@.next),
    ensures
        final(b).inv(),
        netlist::ext(old(b)@, final(b)@),
        fp_ok(r.0@, final(b)@.next),
        fp_ok(r.1@, final(b)@.next),
        fp_ok(r.2@, final(b)@.next),
        fp_ok(r.3@, final(b)@.next),
        forall|env: Env| #[trigger]
            netlist::bits(final(b)@, env, r.0@).len() == 31 && (reference::canonical(
                values(old(b)@, env, x@),
            ) ==> ({
                let v = values(old(b)@, env, x@);
                let k = at as int;
                let (e, f, g, h) = (v[k], v[k + 1], v[k + 2], v[k + 3]);
                &&& elem(final(b)@, env, r.0@) == reference::mix4(0, e, f, g, h)
                &&& elem(final(b)@, env, r.1@) == reference::mix4(1, e, f, g, h)
                &&& elem(final(b)@, env, r.2@) == reference::mix4(2, e, f, g, h)
                &&& elem(final(b)@, env, r.3@) == reference::mix4(3, e, f, g, h)
            })),
{
    let ghost b0 = b@;
    let ghost k = at as int;
    proof {
        assert(fp_ok(x@[k]@, b0.next) && fp_ok(x@[k + 1]@, b0.next) && fp_ok(x@[k + 2]@, b0.next)
            && fp_ok(x@[k + 3]@, b0.next));
    }
    let t01 = self::add(b, &x[at], &x[at + 1]);
    let ghost b1 = b@;
    let t23 = self::add(b, &x[at + 2], &x[at + 3]);
    let ghost b2 = b@;
    let t0123 = self::add(b, &t01, &t23);
    let ghost b3 = b@;
    let t01123 = self::add(b, &t0123, &x[at + 1]);
    let ghost b4 = b@;
    let t01233 = self::add(b, &t0123, &x[at + 3]);
    let ghost b5 = b@;
    let d0 = double(b, &x[at]);
    let ghost b6 = b@;
    let d2 = double(b, &x[at + 2]);
    let ghost b7 = b@;
    let r3 = self::add(b, &t01233, &d0);
    let ghost b8 = b@;
    let r1 = self::add(b, &t01123, &d2);
    let ghost b9 = b@;
    let r0 = self::add(b, &t01123, &t01);
    let ghost b10 = b@;
    let r2 = self::add(b, &t01233, &t23);
    proof {
        assert forall|env: Env| #[trigger] netlist::bits(b@, env, r0@).len() == 31 && (
        reference::canonical(values(b0, env, x@)) ==> ({
            let v = values(b0, env, x@);
            let (e, f, g, h) = (v[k], v[k + 1], v[k + 2], v[k + 3]);
            &&& elem(b@, env, r0@) == reference::mix4(0, e, f, g, h)
            &&& elem(b@, env, r1@) == reference::mix4(1, e, f, g, h)
            &&& elem(b@, env, r2@) == reference::mix4(2, e, f, g, h)
            &&& elem(b@, env, r3@) == reference::mix4(3, e, f, g, h)
        })) by {
            let v = values(b0, env, x@);
            if reference::canonical(v) {
                let (e, f, g, h) = (v[k], v[k + 1], v[k + 2], v[k + 3]);
                let a = field::plus(e, f);
                let c = field::plus(g, h);
                let t = field::plus(a, c);
                let u = field::plus(t, f);
                let w = field::plus(t, h);
                let (m, n) = ((2 * e) % (P as int), (2 * g) % (P as int));
                lemma_mat4(e, f, g, h);
                assert(netlist::bits(b1, env, t01@).len() == 31);
                assert(elem(b1, env, t01@) == a);
                assert(netlist::bits(b1, env, x@[k + 2]@) == netlist::bits(b0, env, x@[k + 2]@));
                assert(netlist::bits(b1, env, x@[k + 3]@) == netlist::bits(b0, env, x@[k + 3]@));
                assert(netlist::bits(b2, env, t23@).len() == 31);
                assert(elem(b2, env, t23@) == c);
                assert(netlist::bits(b2, env, t01@) == netlist::bits(b1, env, t01@));
                assert(netlist::bits(b3, env, t0123@).len() == 31);
                assert(elem(b3, env, t0123@) == t);
                assert(netlist::bits(b3, env, x@[k + 1]@) == netlist::bits(b0, env, x@[k + 1]@));
                assert(netlist::bits(b4, env, t01123@).len() == 31);
                assert(elem(b4, env, t01123@) == u);
                assert(netlist::bits(b4, env, x@[k + 3]@) == netlist::bits(b0, env, x@[k + 3]@));
                assert(netlist::bits(b4, env, t0123@) == netlist::bits(b3, env, t0123@));
                assert(netlist::bits(b5, env, t01233@).len() == 31);
                assert(elem(b5, env, t01233@) == w);
                assert(netlist::bits(b5, env, x@[k]@) == netlist::bits(b0, env, x@[k]@));
                assert(netlist::bits(b6, env, d0@).len() == 31);
                assert(elem(b6, env, d0@) == m);
                assert(netlist::bits(b6, env, x@[k + 2]@) == netlist::bits(b0, env, x@[k + 2]@));
                assert(netlist::bits(b7, env, d2@).len() == 31);
                assert(elem(b7, env, d2@) == n);
                assert(netlist::bits(b7, env, t01233@) == netlist::bits(b5, env, t01233@));
                assert(netlist::bits(b7, env, d0@) == netlist::bits(b6, env, d0@));
                assert(netlist::bits(b8, env, r3@).len() == 31);
                assert(elem(b8, env, r3@) == field::plus(w, m));
                assert(netlist::bits(b8, env, t01123@) == netlist::bits(b4, env, t01123@));
                assert(netlist::bits(b8, env, d2@) == netlist::bits(b7, env, d2@));
                assert(netlist::bits(b9, env, r1@).len() == 31);
                assert(elem(b9, env, r1@) == field::plus(u, n));
                assert(netlist::bits(b9, env, t01123@) == netlist::bits(b4, env, t01123@));
                assert(netlist::bits(b9, env, t01@) == netlist::bits(b1, env, t01@));
                assert(netlist::bits(b10, env, r0@).len() == 31);
                assert(elem(b10, env, r0@) == field::plus(u, a));
                assert(netlist::bits(b10, env, t01233@) == netlist::bits(b5, env, t01233@));
                assert(netlist::bits(b10, env, t23@) == netlist::bits(b2, env, t23@));
                assert(netlist::bits(b@, env, r2@).len() == 31);
                assert(elem(b@, env, r2@) == field::plus(w, c));
                assert(netlist::bits(b@, env, r3@) == netlist::bits(b8, env, r3@));
                assert(netlist::bits(b@, env, r1@) == netlist::bits(b9, env, r1@));
                assert(netlist::bits(b@, env, r0@) == netlist::bits(b10, env, r0@));
            }
        }
    }
    (r0, r1, r2, r3)
}

/// One more element.
proof fn lemma_values_push(c: Netlist, env: Env, xs: Seq<Vec<usize>>, x: Vec<usize>)
    ensures
        values(c, env, xs.push(x)) == values(c, env, xs).push(elem(c, env, x@)),
{
    assert(values(c, env, xs.push(x)) =~= values(c, env, xs).push(elem(c, env, x@)));
}

/// The blocks of the external layer.
#[verifier::rlimit(60)]
fn mix_blocks<T: CircuitTrait>(b: &mut T, state: &Vec<Fp>) -> (out: Vec<Fp>)
    requires
        old(b).inv(),
        state@.len() == 16,
        fps_ok(state@, old(b)@.next),
    ensures
        final(b).inv(),
        netlist::ext(old(b)@, final(b)@),
        out@.len() == 16,
        fps_ok(out@, final(b)@.next),
        forall|env: Env| #[trigger]
            values(final(b)@, env, out@).len() == 16 && (reference::canonical(
                values(old(b)@, env, state@),
            ) ==> values(final(b)@, env, out@) == reference::mixed(values(old(b)@, env, state@))),
{
    let ghost first = b@;
    let mut out: Vec<Fp> = Vec::new();
    proof {
        netlist::lemma_ext_refl(first);
        assert forall|env: Env| #[trigger] values(b@, env, out@).len() == 0 && (
        reference::canonical(values(first, env, state@)) ==> values(b@, env, out@)
            == reference::mixed(values(first, env, state@)).take(0)) by {
            assert(values(b@, env, out@) =~= Seq::<int>::empty());
            assert(reference::mixed(values(first, env, state@)).take(0) =~= Seq::<int>::empty());
        }
    }
    while out.len() < 16
        invariant
            b.inv(),
            netlist::ext(first, b@),
            state@.len() == 16,
            fps_ok(state@, first.next),
            out@.len() <= 16,
            out@.len() % 4 == 0,
            fps_ok(out@, b@.next),
            forall|env: Env| #[trigger]
                values(b@, env, out@).len() == out@.len() && (reference::canonical(
                    values(first, env, state@),
                ) ==> values(b@, env, out@) == reference::mixed(values(first, env, state@)).take(
                    out@.len() as int,
                )),
        decreases 16 - out@.len(),
    {
        let ghost c0 = b@;
        let ghost out0 = out@;
        let at = out.len();
        let r = apply_mat4(b, state, at);
        let ghost rs = r;
        out.push(r.0);
        out.push(r.1);
        out.push(r.2);
        out.push(r.3);
        proof {
            assert forall|i: int| 0 <= i < out@.len() implies (#[trigger] out@[i])@.len() == 31
                && netlist::below(out@[i]@, b@.next) by {
                if i < at {
                    assert(out@[i] == out0[i]);
                    assert(out0[i]@.len() == 31 && netlist::below(out0[i]@, c0.next));
                }
            }
            assert forall|env: Env| #[trigger] values(b@, env, out@).len() == out@.len() && (
            reference::canonical(values(first, env, state@)) ==> values(b@, env, out@)
                == reference::mixed(values(first, env, state@)).take(out@.len() as int)) by {
                lemma_values_ext(first, c0, env, state@);
                lemma_values_ext(c0, b@, env, out0);
                lemma_values_push(b@, env, out0, rs.0);
                lemma_values_push(b@, env, out0.push(rs.0), rs.1);
                lemma_values_push(b@, env, out0.push(rs.0).push(rs.1), rs.2);
                lemma_values_push(b@, env, out0.push(rs.0).push(rs.1).push(rs.2), rs.3);
                assert(values(c0, env, out0).len() == out0.len());
                if reference::canonical(values(first, env, state@)) {
                    let v = values(first, env, state@);
                    let m = reference::mixed(v);
                    assert(netlist::bits(b@, env, rs.0@).len() == 31);
                    assert(values(b@, env, out@) =~= m.take(at + 4));
                }
            }
        }
    }
    proof {
        assert forall|env: Env| #[trigger] values(b@, env, out@).len() == 16 && (
        reference::canonical(values(first, env, state@)) ==> values(b@, env, out@)
            == reference::mixed(values(first, env, state@))) by {
            assert(reference::mixed(values(first, env, state@)).take(16) =~= reference::mixed(
                values(first, env, state@),
            ));
        }
    }
    out
}

/// The sum of a column of four.
#[verifier::rlimit(30)]
fn column_sum<T: CircuitTrait>(b: &mut T, m: &Vec<Fp>, k: usize) -> (s: Fp)
    requires
        old(b).inv(),
        m@.len() == 16,
        k < 4,
        fps_ok(m@, old(b)@.next),
    ensures
        final(b).inv(),
        netlist::ext(old(b)@, final(b)@),
        fp_ok(s@, final(b)@.next),
        forall|env: Env| #[trigger]
            netlist::bits(final(b)@, env, s@).len() == 31 && (reference::canonical(
                values(old(b)@, env, m@),
            ) ==> elem(final(b)@, env, s@) == ({
                let v = values(old(b)@, env, m@);
                (v[k as int] + v[k + 4] + v[k + 8] + v[k + 12]) % (P as int)
            })),
{
    let ghost b0 = b@;
    let ghost i = k as int;
    proof {
        assert(fp_ok(m@[i]@, b0.next) && fp_ok(m@[i + 4]@, b0.next) && fp_ok(m@[i + 8]@, b0.next)
            && fp_ok(m@[i + 12]@, b0.next));
    }
    let s1 = self::add(b, &m[k], &m[k + 4]);
    let ghost b1 = b@;
    let s2 = self::add(b, &s1, &m[k + 8]);
    let ghost b2 = b@;
    let s3 = self::add(b, &s2, &m[k + 12]);
    proof {
        assert forall|env: Env| #[trigger] netlist::bits(b@, env, s3@).len() == 31 && (
        reference::canonical(values(b0, env, m@)) ==> elem(b@, env, s3@) == ({
            let v = values(b0, env, m@);
            (v[k as int] + v[k + 4] + v[k + 8] + v[k + 12]) % (P as int)
        })) by {
            let v = values(b0, env, m@);
            if reference::canonical(v) {
                let p = P as int;
                lemma_small(v[i + 8]);
                lemma_small(v[i + 12]);
                lemma_small(v[i]);
                lemma_small(v[i + 4]);
                assert(netlist::bits(b1, env, s1@).len() == 31);
                assert(elem(b1, env, s1@) == (v[i] + v[i + 4]) % p);
                assert(netlist::bits(b1, env, m@[i + 8]@) == netlist::bits(b0, env, m@[i + 8]@));
                lemma_plus(v[i] + v[i + 4], v[i + 8]);
                assert(netlist::bits(b2, env, s2@).len() == 31);
                assert(elem(b2, env, s2@) == (v[i] + v[i + 4] + v[i + 8]) % p);
                assert(netlist::bits(b2, env, m@[i + 12]@) == netlist::bits(b0, env, m@[i + 12]@));
                lemma_plus(v[i] + v[i + 4] + v[i + 8], v[i + 12]);
            }
        }
    }
    s3
}

/// The external linear layer.
#[verifier::rlimit(60)]
pub fn mds_light<T: CircuitTrait>(b: &mut T, state: &mut Vec<Fp>)
    requires
        old(b).inv(),
        old(state)@.len() == 16,
        fps_ok(old(state)@, old(b)@.next),
    ensures
        final(b).inv(),
        netlist::ext(old(b)@, final(b)@),
        final(state)@.len() == 16,
        fps_ok(final(state)@, final(b)@.next),
        forall|env: Env| #[trigger]
            values(final(b)@, env, final(state)@).len() == 16 && (reference::canonical(
                values(old(b)@, env, old(state)@),
            ) ==> values(final(b)@, env, final(state)@) == reference::external_linear(
                values(old(b)@, env, old(state)@),
            )),
{
    let ghost first = b@;
    let ghost st = state@;
    let m = mix_blocks(b, state);
    let ghost c1 = b@;
    let s0 = column_sum(b, &m, 0);
    let ghost c2 = b@;
    let s1 = column_sum(b, &m, 1);
    let ghost c3 = b@;
    let s2 = column_sum(b, &m, 2);
    let ghost c4 = b@;
    let s3 = column_sum(b, &m, 3);
    let ghost c5 = b@;
    let ghost mv = |env: Env| reference::mixed(values(first, env, st));
    let ghost good = |env: Env| reference::canonical(values(first, env, st));
    let ghost col = |env: Env, k: int|
        (mv(env)[k] + mv(env)[k + 4] + mv(env)[k + 8] + mv(env)[k + 12]) % (P as int);
    proof {
        assert forall|env: Env| good(env) implies {
            &&& #[trigger] values(c1, env, m@) == mv(env)
            &&& reference::canonical(mv(env))
            &&& elem(c5, env, s0@) == col(env, 0)
            &&& elem(c5, env, s1@) == col(env, 1)
            &&& elem(c5, env, s2@) == col(env, 2)
            &&& elem(c5, env, s3@) == col(env, 3)
        } by {
            assert(values(c1, env, m@).len() == 16);
            assert(reference::canonical(mv(env)));
            lemma_values_ext(c1, c2, env, m@);
            lemma_values_ext(c1, c3, env, m@);
            lemma_values_ext(c1, c4, env, m@);
            assert(netlist::bits(c2, env, s0@).len() == 31);
            assert(netlist::bits(c3, env, s1@).len() == 31);
            assert(netlist::bits(c4, env, s2@).len() == 31);
            assert(netlist::bits(c5, env, s3@).len() == 31);
            assert(netlist::bits(c5, env, s0@) == netlist::bits(c2, env, s0@));
            assert(netlist::bits(c5, env, s1@) == netlist::bits(c3, env, s1@));
            assert(netlist::bits(c5, env, s2@) == netlist::bits(c4, env, s2@));
        }
        netlist::lemma_ext_refl(c5);
    }
    let mut out: Vec<Fp> = Vec::new();
    proof {
        assert forall|env: Env| #[trigger] values(b@, env, out@).len() == 0 && (good(env)
            ==> values(b@, env, out@) == reference::external_linear(values(first, env, st)).take(
            0,
        )) by {
            assert(values(b@, env, out@) =~= Seq::<int>::empty());
            assert(reference::external_linear(values(first, env, st)).take(0) =~= Seq::<
                int,
            >::empty());
        }
    }
    while out.len() < 16
        invariant
            b.inv(),
            netlist::ext(first, c1),
            netlist::ext(c1, c5),
            netlist::ext(c5, b@),
            m@.len() == 16,
            fps_ok(m@, c1.next),
            fp_ok(s0@, c5.next),
            fp_ok(s1@, c5.next),
            fp_ok(s2@, c5.next),
            fp_ok(s3@, c5.next),
            out@.len() <= 16,
            fps_ok(out@, b@.next),
            mv == (|env: Env| reference::mixed(values(first, env, st))),
            good == (|env: Env| reference::canonical(values(first, env, st))),
            col == (|env: Env, k: int|
                (mv(env)[k] + mv(env)[k + 4] + mv(env)[k + 8] + mv(env)[k + 12]) % (P as int)),
            forall|env: Env|
                good(env) ==> {
                    &&& #[trigger] values(c1, env, m@) == mv(env)
                    &&& reference::canonical(mv(env))
                    &&& elem(c5, env, s0@) == col(env, 0)
                    &&& elem(c5, env, s1@) == col(env, 1)
                    &&& elem(c5, env, s2@) == col(env, 2)
                    &&& elem(c5, env, s3@) == col(env, 3)
                },
            forall|env: Env| #[trigger]
                values(b@, env, out@).len() == out@.len() && (good(env) ==> values(b@, env, out@)
                    == reference::external_linear(values(first, env, st)).take(out@.len() as int)),
        decreases 16 - out@.len(),
    {
        let i = out.len();
        let ghost c0 = b@;
        let ghost out0 = out@;
        let s = if i % 4 == 0 {
            &s0
        } else if i % 4 == 1 {
            &s1
        } else if i % 4 == 2 {
            &s2
        } else {
            &s3
        };
        assert(fp_ok(m@[i as int]@, c1.next));
        let e = self::add(b, &m[i], s);
        out.push(e);
        proof {
            assert forall|j: int| 0 <= j < out@.len() implies (#[trigger] out@[j])@.len() == 31
                && netlist::below(out@[j]@, b@.next) by {
                if j < i {
                    assert(out@[j] == out0[j]);
                    assert(out0[j]@.len() == 31 && netlist::below(out0[j]@, c0.next));
                }
            }
            assert forall|env: Env| #[trigger] values(b@, env, out@).len() == out@.len() && (good(
                env,
            ) ==> values(b@, env, out@) == reference::external_linear(
                values(first, env, st),
            ).take(out@.len() as int)) by {
                lemma_values_ext(c0, b@, env, out0);
                lemma_values_push(b@, env, out0, e);
                assert(values(c0, env, out0).len() == out0.len());
                if good(env) {
                    let v = mv(env);
                    let k = i as int;
                    assert(values(c1, env, m@) == v);
                    assert(elem(c1, env, m@[k]@) == values(c1, env, m@)[k]);
                    assert(netlist::bits(c0, env, m@[k]@) == netlist::bits(c1, env, m@[k]@));
                    assert(netlist::bits(c0, env, s@) == netlist::bits(c5, env, s@));
                    assert(elem(c0, env, s@) == col(env, k % 4));
                    let t = v[k % 4] + v[k % 4 + 4] + v[k % 4 + 8] + v[k % 4 + 12];
                    lemma_small(v[k]);
                    lemma_plus(v[k], t);
                    assert(netlist::bits(b@, env, e@).len() == 31);
                    assert(elem(b@, env, e@) == (v[k] + t) % (P as int));
                    let want = reference::external_linear(values(first, env, st));
                    assert(want.take(k + 1) =~= want.take(k).push(want[k]));
                }
            }
        }
    }
    *state = out;
    proof {
        assert forall|env: Env| #[trigger] values(b@, env, state@).len() == 16 && (
        reference::canonical(values(first, env, st)) ==> values(b@, env, state@)
            == reference::external_linear(values(first, env, st))) by {
            let want = reference::external_linear(values(first, env, st));
            assert(want.take(16) =~= want);
            assert(good(env) == reference::canonical(values(first, env, st)));
        }
    }
}

/// `x k` for the small multiples of the diagonal.
fn multiple<T: CircuitTrait>(b: &mut T, x: &Fp, k: u32) -> (r: Fp)
    requires
        old(b).inv(),
        2 <= k <= 4,
        fp_ok(x@, old(b)@.next),
    ensures
        final(b).inv(),
        netlist::ext(old(b)@, final(b)@),
        fp_ok(r@, final(b)@.next),
        forall|env: Env| #[trigger]
            netlist::bits(final(b)@, env, r@).len() == 31 && (elem(old(b)@, env, x@) < P ==> elem(
                final(b)@,
                env,
                r@,
            ) == ((k as int) * elem(old(b)@, env, x@)) % (P as int)),
{
    let ghost b0 = b@;
    let d = double(b, x);
    let ghost b1 = b@;
    if k == 2 {
        d
    } else if k == 3 {
        let r = self::add(b, &d, x);
        proof {
            assert forall|env: Env| #[trigger] netlist::bits(b@, env, r@).len() == 31 && (elem(
                b0,
                env,
                x@,
            ) < P ==> elem(b@, env, r@) == (3 * elem(b0, env, x@)) % (P as int)) by {
                let v = elem(b0, env, x@);
                lemma_elem(b0, env, x@);
                if v < P {
                    assert(netlist::bits(b1, env, d@).len() == 31);
                    assert(netlist::bits(b1, env, x@) == netlist::bits(b0, env, x@));
                    lemma_small(v);
                    lemma_plus(2 * v, v);
                }
            }
        }
        r
    } else {
        let r = double(b, &d);
        proof {
            assert forall|env: Env| #[trigger] netlist::bits(b@, env, r@).len() == 31 && (elem(
                b0,
                env,
                x@,
            ) < P ==> elem(b@, env, r@) == (4 * elem(b0, env, x@)) % (P as int)) by {
                let v = elem(b0, env, x@);
                if v < P {
                    assert(netlist::bits(b1, env, d@).len() == 31);
                    lemma_plus(2 * v, 2 * v);
                }
            }
        }
        r
    }
}

/// An element of the internal layer after the first: the diagonal's entry times
/// the element, plus the sum.
#[verifier::rlimit(60)]
fn internal_entry<T: CircuitTrait>(b: &mut T, i: usize, x: &Fp, sum: &Fp) -> (r: Fp)
    requires
        old(b).inv(),
        1 <= i < 16,
        fp_ok(x@, old(b)@.next),
        fp_ok(sum@, old(b)@.next),
    ensures
        final(b).inv(),
        netlist::ext(old(b)@, final(b)@),
        fp_ok(r@, final(b)@.next),
        forall|env: Env| #[trigger]
            netlist::bits(final(b)@, env, r@).len() == 31 && (elem(old(b)@, env, x@) < P && elem(
                old(b)@,
                env,
                sum@,
            ) < P ==> elem(final(b)@, env, r@) == (reference::scaled(
                i as int,
                elem(old(b)@, env, x@),
            ) + elem(old(b)@, env, sum@)) % (P as int)),
{
    let ghost b0 = b@;
    proof {
        netlist::lemma_ext_refl(b0);
    }
    let t = if i == 1 {
        copy_fp(x)
    } else if i == 2 {
        multiple(b, x, 2)
    } else if i == 3 || i == 6 {
        halve(b, x)
    } else if i == 4 || i == 7 {
        multiple(b, x, 3)
    } else if i == 5 || i == 8 {
        multiple(b, x, 4)
    } else if i == 9 || i == 12 {
        div_2exp(b, x, 8)
    } else if i == 10 || i == 13 {
        div_2exp(b, x, 3)
    } else if i == 11 || i == 15 {
        div_2exp(b, x, 24)
    } else {
        div_2exp(b, x, 4)
    };
    let ghost b1 = b@;
    let negative = 6 <= i && i <= 8 || 12 <= i;
    let ghost v = |env: Env|
        if negative {
            -reference::scaled(i as int, elem(b0, env, x@))
        } else {
            reference::scaled(i as int, elem(b0, env, x@))
        };
    proof {
        assert forall|env: Env| elem(b0, env, x@) < P && elem(b0, env, sum@) < P implies {
            &&& elem(b1, env, t@) == #[trigger] v(env) % (P as int)
            &&& elem(b1, env, t@) < P
            &&& elem(b1, env, sum@) == elem(b0, env, sum@)
        } by {
            let e = elem(b0, env, x@);
            lemma_elem(b0, env, x@);
            lemma_small(e);
            assert(netlist::bits(b1, env, t@).len() == 31);
            assert(netlist::bits(b1, env, sum@) == netlist::bits(b0, env, sum@));
            lemma_elem(b1, env, t@);
            if i == 3 || i == 6 {
                assert(field::shrunk(e, 0) == e);
                assert(field::shrunk(e, 1) == field::times(e, field::half()));
            }
            if i == 3 || i == 6 || i >= 9 {
                assert(v(env) == elem(b1, env, t@));
                lemma_small(elem(b1, env, t@));
            }
        }
    }
    if negative {
        let r = self::sub(b, sum, &t);
        proof {
            assert forall|env: Env| #[trigger] netlist::bits(b@, env, r@).len() == 31 && (elem(
                b0,
                env,
                x@,
            ) < P && elem(b0, env, sum@) < P ==> elem(b@, env, r@) == (reference::scaled(
                i as int,
                elem(b0, env, x@),
            ) + elem(b0, env, sum@)) % (P as int)) by {
                if elem(b0, env, x@) < P && elem(b0, env, sum@) < P {
                    let u = v(env);
                    let s = elem(b0, env, sum@);
                    lemma_elem(b0, env, sum@);
                    assert(elem(b1, env, t@) == u % (P as int));
                    lemma_small(s);
                    lemma_plus(s, u);
                }
            }
        }
        r
    } else {
        let r = self::add(b, &t, sum);
        proof {
            assert forall|env: Env| #[trigger] netlist::bits(b@, env, r@).len() == 31 && (elem(
                b0,
                env,
                x@,
            ) < P && elem(b0, env, sum@) < P ==> elem(b@, env, r@) == (reference::scaled(
                i as int,
                elem(b0, env, x@),
            ) + elem(b0, env, sum@)) % (P as int)) by {
                if elem(b0, env, x@) < P && elem(b0, env, sum@) < P {
                    let u = v(env);
                    let s = elem(b0, env, sum@);
                    lemma_elem(b0, env, sum@);
                    assert(elem(b1, env, t@) == u % (P as int));
                    lemma_small(s);
                    lemma_plus(u, s);
                }
            }
        }
        r
    }
}

/// `s[1] + .. + s[k]`.
spec fn tail_sum(s: Seq<int>, k: nat) -> int {
    reference::sum_to(s, k + 1) - s[0]
}

/// The internal linear layer.
#[verifier::rlimit(80)]
pub fn internal_linear<T: CircuitTrait>(b: &mut T, state: &mut Vec<Fp>)
    requires
        old(b).inv(),
        old(state)@.len() == 16,
        fps_ok(old(state)@, old(b)@.next),
    ensures
        final(b).inv(),
        netlist::ext(old(b)@, final(b)@),
        final(state)@.len() == 16,
        fps_ok(final(state)@, final(b)@.next),
        forall|env: Env| #[trigger]
            values(final(b)@, env, final(state)@).len() == 16 && (reference::canonical(
                values(old(b)@, env, old(state)@),
            ) ==> values(final(b)@, env, final(state)@) == reference::internal_linear(
                values(old(b)@, env, old(state)@),
            )),
{
    let ghost first = b@;
    let ghost st = state@;
    let ghost vals = |env: Env| values(first, env, st);
    let ghost good = |env: Env| reference::canonical(values(first, env, st));
    let mut part = copy_fp(&state[1]);
    let mut k: usize = 2;
    proof {
        netlist::lemma_ext_refl(first);
        assert(fp_ok(st[1]@, first.next));
        assert forall|env: Env| #[trigger] netlist::bits(b@, env, part@).len() == 31 && (good(env)
            ==> elem(b@, env, part@) == tail_sum(vals(env), 1) % (P as int)) by {
            if good(env) {
                let v = vals(env);
                reveal_with_fuel(reference::sum_to, 3);
                lemma_small(v[1]);
            }
        }
    }
    while k < 16
        invariant
            b.inv(),
            netlist::ext(first, b@),
            state@ == st,
            st.len() == 16,
            fps_ok(st, first.next),
            2 <= k <= 16,
            fp_ok(part@, b@.next),
            vals == (|env: Env| values(first, env, st)),
            good == (|env: Env| reference::canonical(values(first, env, st))),
            forall|env: Env| #[trigger]
                netlist::bits(b@, env, part@).len() == 31 && (good(env) ==> elem(b@, env, part@)
                    == tail_sum(vals(env), (k - 1) as nat) % (P as int)),
        decreases 16 - k,
    {
        let ghost c0 = b@;
        let ghost p0 = part@;
        assert(fp_ok(st[k as int]@, first.next));
        part = self::add(b, &part, &state[k]);
        proof {
            assert forall|env: Env| #[trigger] netlist::bits(b@, env, part@).len() == 31 && (good(
                env,
            ) ==> elem(b@, env, part@) == tail_sum(vals(env), k as nat) % (P as int)) by {
                assert(netlist::bits(c0, env, p0).len() == 31);
                if good(env) {
                    let v = vals(env);
                    assert(elem(c0, env, st[k as int]@) == v[k as int]) by {
                        assert(netlist::bits(c0, env, st[k as int]@) == netlist::bits(
                            first,
                            env,
                            st[k as int]@,
                        ));
                    }
                    lemma_small(v[k as int]);
                    lemma_plus(tail_sum(v, (k - 1) as nat), v[k as int]);
                }
            }
        }
        k = k + 1;
    }
    let ghost c1 = b@;
    assert(fp_ok(st[0]@, first.next));
    let full = self::add(b, &part, &state[0]);
    let ghost c2 = b@;
    let head = self::sub(b, &part, &state[0]);
    let ghost c3 = b@;
    proof {
        netlist::lemma_ext_refl(c3);
        assert forall|env: Env| #[trigger] good(env) implies {
            let v = vals(env);
            &&& elem(c3, env, full@) == reference::sum_to(v, 16) % (P as int)
            &&& elem(c3, env, head@) == reference::internal_linear(v)[0]
        } by {
            let v = vals(env);
            let t = tail_sum(v, 15);
            assert(netlist::bits(c1, env, part@).len() == 31);
            assert(netlist::bits(c1, env, st[0]@) == netlist::bits(first, env, st[0]@));
            assert(netlist::bits(c2, env, st[0]@) == netlist::bits(first, env, st[0]@));
            assert(elem(first, env, st[0]@) == v[0]);
            lemma_small(v[0]);
            lemma_plus(t, v[0]);
            assert(netlist::bits(c2, env, full@).len() == 31);
            assert(netlist::bits(c2, env, part@) == netlist::bits(c1, env, part@));
            assert(netlist::bits(c3, env, full@) == netlist::bits(c2, env, full@));
            assert(netlist::bits(c3, env, head@).len() == 31);
        }
    }
    let mut out: Vec<Fp> = Vec::new();
    let ghost hw = head;
    out.push(head);
    proof {
        assert forall|env: Env| #[trigger] values(b@, env, out@).len() == 1 && (good(env)
            ==> values(b@, env, out@) == reference::internal_linear(vals(env)).take(1)) by {
            if good(env) {
                assert(values(b@, env, out@) =~= reference::internal_linear(vals(env)).take(1));
            }
        }
    }
    while out.len() < 16
        invariant
            b.inv(),
            netlist::ext(first, c3),
            netlist::ext(c3, b@),
            state@ == st,
            st.len() == 16,
            fps_ok(st, first.next),
            fp_ok(full@, c3.next),
            1 <= out@.len() <= 16,
            fps_ok(out@, b@.next),
            vals == (|env: Env| values(first, env, st)),
            good == (|env: Env| reference::canonical(values(first, env, st))),
            forall|env: Env| #[trigger]
                good(env) ==> elem(c3, env, full@) == reference::sum_to(vals(env), 16) % (P as int),
            forall|env: Env| #[trigger]
                values(b@, env, out@).len() == out@.len() && (good(env) ==> values(b@, env, out@)
                    == reference::internal_linear(vals(env)).take(out@.len() as int)),
        decreases 16 - out@.len(),
    {
        let i = out.len();
        let ghost c0 = b@;
        let ghost out0 = out@;
        assert(fp_ok(st[i as int]@, first.next));
        let e = internal_entry(b, i, &state[i], &full);
        out.push(e);
        proof {
            assert forall|j: int| 0 <= j < out@.len() implies (#[trigger] out@[j])@.len() == 31
                && netlist::below(out@[j]@, b@.next) by {
                if j < i {
                    assert(out@[j] == out0[j]);
                    assert(out0[j]@.len() == 31 && netlist::below(out0[j]@, c0.next));
                }
            }
            assert forall|env: Env| #[trigger] values(b@, env, out@).len() == out@.len() && (good(
                env,
            ) ==> values(b@, env, out@) == reference::internal_linear(vals(env)).take(
                out@.len() as int,
            )) by {
                lemma_values_ext(c0, b@, env, out0);
                lemma_values_push(b@, env, out0, e);
                assert(values(c0, env, out0).len() == out0.len());
                if good(env) {
                    let v = vals(env);
                    let n = i as int;
                    assert(netlist::bits(c0, env, st[n]@) == netlist::bits(first, env, st[n]@));
                    assert(elem(first, env, st[n]@) == v[n]);
                    assert(netlist::bits(c0, env, full@) == netlist::bits(c3, env, full@));
                    let t = reference::sum_to(v, 16);
                    assert(elem(c0, env, full@) == t % (P as int));
                    assert(netlist::bits(b@, env, e@).len() == 31);
                    vstd::arithmetic::div_mod::lemma_add_mod_noop_right(
                        reference::scaled(n, v[n]),
                        t,
                        P as int,
                    );
                    let want = reference::internal_linear(v);
                    assert(elem(b@, env, e@) == want[n]);
                    assert(want.take(n + 1) =~= want.take(n).push(want[n]));
                }
            }
        }
    }
    *state = out;
    proof {
        assert forall|env: Env| #[trigger] values(b@, env, state@).len() == 16 && (
        reference::canonical(values(first, env, st)) ==> values(b@, env, state@)
            == reference::internal_linear(values(first, env, st))) by {
            let want = reference::internal_linear(values(first, env, st));
            assert(want.take(16) =~= want);
            assert(good(env) == reference::canonical(values(first, env, st)));
        }
    }
}

/// `s + c`, cubed.
fn keyed_cube<T: CircuitTrait>(b: &mut T, s: &Fp, c: u32) -> (r: Fp)
    requires
        old(b).inv(),
        fp_ok(s@, old(b)@.next),
        c < P,
    ensures
        final(b).inv(),
        netlist::ext(old(b)@, final(b)@),
        fp_ok(r@, final(b)@.next),
        forall|env: Env| #[trigger]
            netlist::bits(final(b)@, env, r@).len() == 31 && (elem(old(b)@, env, s@) < P ==> elem(
                final(b)@,
                env,
                r@,
            ) == field::cube(field::plus(elem(old(b)@, env, s@), c as int))),
{
    let ghost b0 = b@;
    let k = constant(b, c);
    let t = self::add(b, s, &k);
    let ghost b1 = b@;
    let r = sbox(b, &t);
    proof {
        assert forall|env: Env| #[trigger] netlist::bits(b@, env, r@).len() == 31 && (elem(
            b0,
            env,
            s@,
        ) < P ==> elem(b@, env, r@) == field::cube(
            field::plus(elem(b0, env, s@), c as int),
        )) by {
            assert(netlist::bits(b0, env, k@).len() == 31);
            assert(netlist::bits(b1, env, t@).len() == 31);
        }
    }
    r
}

/// The round constants of an external round, added, and every element cubed.
#[verifier::rlimit(60)]
fn keyed_round<T: CircuitTrait>(b: &mut T, state: &mut Vec<Fp>, keys: &[u32; 64], n: usize)
    requires
        old(b).inv(),
        old(state)@.len() == 16,
        fps_ok(old(state)@, old(b)@.next),
        n < 4,
        forall|i: int| 0 <= i < 64 ==> (#[trigger] keys@[i]) < P,
    ensures
        final(b).inv(),
        netlist::ext(old(b)@, final(b)@),
        final(state)@.len() == 16,
        fps_ok(final(state)@, final(b)@.next),
        forall|env: Env| #[trigger]
            values(final(b)@, env, final(state)@).len() == 16 && (reference::canonical(
                values(old(b)@, env, old(state)@),
            ) ==> values(final(b)@, env, final(state)@) == reference::keyed(
                values(old(b)@, env, old(state)@),
                reference::ints(keys@).subrange(16 * n, 16 * n + 16),
            )),
{
    let ghost first = b@;
    let ghost st = state@;
    let ghost key = reference::ints(keys@).subrange(16 * n, 16 * n + 16);
    let mut out: Vec<Fp> = Vec::new();
    proof {
        netlist::lemma_ext_refl(first);
        assert forall|env: Env| #[trigger] values(b@, env, out@).len() == 0 && (
        reference::canonical(values(first, env, st)) ==> values(b@, env, out@)
            == reference::keyed(values(first, env, st), key).take(0)) by {
            assert(values(b@, env, out@) =~= Seq::<int>::empty());
            assert(reference::keyed(values(first, env, st), key).take(0) =~= Seq::<int>::empty());
        }
    }
    while out.len() < 16
        invariant
            b.inv(),
            netlist::ext(first, b@),
            state@ == st,
            st.len() == 16,
            fps_ok(st, first.next),
            n < 4,
            keys@.len() == 64,
            forall|i: int| 0 <= i < 64 ==> (#[trigger] keys@[i]) < P,
            key == reference::ints(keys@).subrange(16 * n, 16 * n + 16),
            out@.len() <= 16,
            fps_ok(out@, b@.next),
            forall|env: Env| #[trigger]
                values(b@, env, out@).len() == out@.len() && (reference::canonical(
                    values(first, env, st),
                ) ==> values(b@, env, out@) == reference::keyed(values(first, env, st), key).take(
                    out@.len() as int,
                )),
        decreases 16 - out@.len(),
    {
        let i = out.len();
        let ghost c0 = b@;
        let ghost out0 = out@;
        assert(fp_ok(st[i as int]@, first.next));
        assert(keys@[16 * n + i] < P);
        let e = keyed_cube(b, &state[i], keys[16 * n + i]);
        out.push(e);
        proof {
            assert forall|j: int| 0 <= j < out@.len() implies (#[trigger] out@[j])@.len() == 31
                && netlist::below(out@[j]@, b@.next) by {
                if j < i {
                    assert(out@[j] == out0[j]);
                    assert(out0[j]@.len() == 31 && netlist::below(out0[j]@, c0.next));
                }
            }
            assert forall|env: Env| #[trigger] values(b@, env, out@).len() == out@.len() && (
            reference::canonical(values(first, env, st)) ==> values(b@, env, out@)
                == reference::keyed(values(first, env, st), key).take(out@.len() as int)) by {
                lemma_values_ext(c0, b@, env, out0);
                lemma_values_push(b@, env, out0, e);
                assert(values(c0, env, out0).len() == out0.len());
                if reference::canonical(values(first, env, st)) {
                    let v = values(first, env, st);
                    let k = i as int;
                    assert(netlist::bits(c0, env, st[k]@) == netlist::bits(first, env, st[k]@));
                    assert(elem(first, env, st[k]@) == v[k]);
                    assert(field::canonical(v[k]));
                    assert(key[k] == keys@[16 * n + i] as int);
                    assert(netlist::bits(b@, env, e@).len() == 31);
                    let want = reference::keyed(v, key);
                    assert(elem(b@, env, e@) == want[k]);
                    assert(want.take(k + 1) =~= want.take(k).push(want[k]));
                }
            }
        }
    }
    *state = out;
    proof {
        assert forall|env: Env| #[trigger] values(b@, env, state@).len() == 16 && (
        reference::canonical(values(first, env, st)) ==> values(b@, env, state@)
            == reference::keyed(values(first, env, st), key)) by {
            let want = reference::keyed(values(first, env, st), key);
            assert(want.take(16) =~= want);
        }
    }
}

/// The four external rounds with constants `keys`.
#[verifier::rlimit(40)]
fn external_rounds<T: CircuitTrait>(b: &mut T, state: &mut Vec<Fp>, keys: &[u32; 64])
    requires
        old(b).inv(),
        old(state)@.len() == 16,
        fps_ok(old(state)@, old(b)@.next),
        forall|i: int| 0 <= i < 64 ==> (#[trigger] keys@[i]) < P,
    ensures
        final(b).inv(),
        netlist::ext(old(b)@, final(b)@),
        final(state)@.len() == 16,
        fps_ok(final(state)@, final(b)@.next),
        forall|env: Env| #[trigger]
            values(final(b)@, env, final(state)@).len() == 16 && (reference::canonical(
                values(old(b)@, env, old(state)@),
            ) ==> values(final(b)@, env, final(state)@) == reference::external_rounds(
                values(old(b)@, env, old(state)@),
                reference::ints(keys@),
                4,
            )),
{
    let ghost first = b@;
    let ghost st = state@;
    let mut n: usize = 0;
    proof {
        netlist::lemma_ext_refl(first);
    }
    while n < 4
        invariant
            b.inv(),
            netlist::ext(first, b@),
            st.len() == 16,
            n <= 4,
            state@.len() == 16,
            fps_ok(state@, b@.next),
            keys@.len() == 64,
            forall|i: int| 0 <= i < 64 ==> (#[trigger] keys@[i]) < P,
            forall|env: Env| #[trigger]
                values(b@, env, state@).len() == 16 && (reference::canonical(
                    values(first, env, st),
                ) ==> values(b@, env, state@) == reference::external_rounds(
                    values(first, env, st),
                    reference::ints(keys@),
                    n as nat,
                )),
        decreases 4 - n,
    {
        let ghost c0 = b@;
        let ghost s0 = state@;
        keyed_round(b, state, keys, n);
        let ghost c1 = b@;
        let ghost s1 = state@;
        mds_light(b, state);
        proof {
            assert forall|env: Env| #[trigger] values(b@, env, state@).len() == 16 && (
            reference::canonical(values(first, env, st)) ==> values(b@, env, state@)
                == reference::external_rounds(
                values(first, env, st),
                reference::ints(keys@),
                (n + 1) as nat,
            )) by {
                assert(values(c0, env, s0).len() == 16);
                assert(values(c1, env, s1).len() == 16);
                if reference::canonical(values(first, env, st)) {
                    let v = values(first, env, st);
                    reference::lemma_external_len(v, reference::ints(keys@), n as nat);
                    let key = reference::ints(keys@).subrange(16 * n, 16 * n + 16);
                    assert(reference::canonical(reference::keyed(values(c0, env, s0), key)));
                }
            }
        }
        n = n + 1;
    }
}

/// The twenty internal rounds.
#[verifier::rlimit(60)]
fn internal_rounds<T: CircuitTrait>(b: &mut T, state: &mut Vec<Fp>)
    requires
        old(b).inv(),
        old(state)@.len() == 16,
        fps_ok(old(state)@, old(b)@.next),
    ensures
        final(b).inv(),
        netlist::ext(old(b)@, final(b)@),
        final(state)@.len() == 16,
        fps_ok(final(state)@, final(b)@.next),
        forall|env: Env| #[trigger]
            values(final(b)@, env, final(state)@).len() == 16 && (reference::canonical(
                values(old(b)@, env, old(state)@),
            ) ==> values(final(b)@, env, final(state)@) == reference::internal_rounds(
                values(old(b)@, env, old(state)@),
                reference::ints(INTERNAL@),
                20,
            )),
{
    let ghost first = b@;
    let ghost st = state@;
    let keys = INTERNAL;
    let mut n: usize = 0;
    proof {
        netlist::lemma_ext_refl(first);
    }
    while n < 20
        invariant
            b.inv(),
            netlist::ext(first, b@),
            st.len() == 16,
            n <= 20,
            state@.len() == 16,
            fps_ok(state@, b@.next),
            keys@ == INTERNAL@,
            keys@.len() == 20,
            forall|env: Env| #[trigger]
                values(b@, env, state@).len() == 16 && (reference::canonical(
                    values(first, env, st),
                ) ==> values(b@, env, state@) == reference::internal_rounds(
                    values(first, env, st),
                    reference::ints(INTERNAL@),
                    n as nat,
                )),
        decreases 20 - n,
    {
        let ghost c0 = b@;
        let ghost s0 = state@;
        proof {
            constants::lemma_constants(n as int);
        }
        assert(fp_ok(s0[0]@, c0.next));
        let e = keyed_cube(b, &state[0], keys[n]);
        let ghost c1 = b@;
        state.set(0, e);
        let ghost s1 = state@;
        proof {
            assert(s1 =~= s0.update(0, e));
            assert forall|j: int| 0 <= j < 16 implies (#[trigger] s1[j])@.len() == 31
                && netlist::below(s1[j]@, c1.next) by {
                if j > 0 {
                    assert(s1[j] == s0[j]);
                    assert(s0[j]@.len() == 31 && netlist::below(s0[j]@, c0.next));
                }
            }
        }
        internal_linear(b, state);
        proof {
            assert forall|env: Env| #[trigger] values(b@, env, state@).len() == 16 && (
            reference::canonical(values(first, env, st)) ==> values(b@, env, state@)
                == reference::internal_rounds(
                values(first, env, st),
                reference::ints(INTERNAL@),
                (n + 1) as nat,
            )) by {
                assert(values(c0, env, s0).len() == 16);
                if reference::canonical(values(first, env, st)) {
                    let v = values(first, env, st);
                    reference::lemma_internal_len(v, reference::ints(INTERNAL@), n as nat);
                    let before = values(c0, env, s0);
                    assert(elem(c0, env, s0[0]@) == before[0]);
                    assert(netlist::bits(c1, env, e@).len() == 31);
                    let k = reference::ints(INTERNAL@)[n as int];
                    let cube = field::cube(field::plus(before[0], k));
                    lemma_values_ext(c0, c1, env, s0);
                    assert(values(c1, env, s1) =~= before.update(0, cube)) by {
                        assert forall|j: int| 0 <= j < 16 implies values(c1, env, s1)[j]
                            == before.update(0, cube)[j] by {
                            if j > 0 {
                                assert(s1[j] == s0[j]);
                                assert(values(c1, env, s0)[j] == before[j]);
                            }
                        }
                    }
                    assert(reference::canonical(before.update(0, cube)));
                }
            }
        }
        n = n + 1;
    }
}

/// The permutation, on canonical elements.
#[verifier::rlimit(40)]
pub fn permute<T: CircuitTrait>(b: &mut T, state: &mut Vec<Fp>)
    requires
        old(b).inv(),
        old(state)@.len() == WIDTH,
        fps_ok(old(state)@, old(b)@.next),
    ensures
        final(b).inv(),
        netlist::ext(old(b)@, final(b)@),
        final(state)@.len() == WIDTH,
        fps_ok(final(state)@, final(b)@.next),
        forall|env: Env| #[trigger]
            values(final(b)@, env, final(state)@).len() == WIDTH && (reference::canonical(
                values(old(b)@, env, old(state)@),
            ) ==> values(final(b)@, env, final(state)@) == reference::permutation(
                values(old(b)@, env, old(state)@),
            )),
{
    let ghost first = b@;
    let ghost st = state@;
    mds_light(b, state);
    let ghost c1 = b@;
    let ghost s1 = state@;
    let initial = EXTERNAL_INITIAL;
    let last = EXTERNAL_FINAL;
    proof {
        assert forall|i: int| 0 <= i < 64 implies (#[trigger] initial@[i]) < P by {
            constants::lemma_constants(i);
        }
        assert forall|i: int| 0 <= i < 64 implies (#[trigger] last@[i]) < P by {
            constants::lemma_constants(i);
        }
    }
    external_rounds(b, state, &initial);
    let ghost c2 = b@;
    let ghost s2 = state@;
    internal_rounds(b, state);
    let ghost c3 = b@;
    let ghost s3 = state@;
    external_rounds(b, state, &last);
    proof {
        assert forall|env: Env| #[trigger] values(b@, env, state@).len() == 16 && (
        reference::canonical(values(first, env, st)) ==> values(b@, env, state@)
            == reference::permutation(values(first, env, st))) by {
            assert(values(c1, env, s1).len() == 16);
            assert(values(c2, env, s2).len() == 16);
            assert(values(c3, env, s3).len() == 16);
            if reference::canonical(values(first, env, st)) {
                reveal(reference::permutation);
                let v1 = values(c1, env, s1);
                assert(reference::canonical(v1));
                reference::lemma_external_len(v1, reference::ints(initial@), 4);
                let v2 = values(c2, env, s2);
                reference::lemma_internal_len(v2, reference::ints(INTERNAL@), 20);
            }
        }
    }
}

fn copy_fps(xs: &[Fp], Ghost(n): Ghost<nat>) -> (r: Vec<Fp>)
    requires
        fps_ok(xs@, n),
    ensures
        r@.len() == xs@.len(),
        fps_ok(r@, n),
        forall|i: int| 0 <= i < xs@.len() ==> (#[trigger] r@[i])@ == xs@[i]@,
        forall|c: Netlist, env: Env| #[trigger] values(c, env, r@) == values(c, env, xs@),
{
    let mut r: Vec<Fp> = Vec::new();
    while r.len() < xs.len()
        invariant
            r@.len() <= xs@.len(),
            fps_ok(xs@, n),
            forall|i: int| 0 <= i < r@.len() ==> (#[trigger] r@[i])@ == xs@[i]@,
        decreases xs@.len() - r@.len(),
    {
        let x = copy_fp(&xs[r.len()]);
        r.push(x);
    }
    proof {
        assert forall|i: int| 0 <= i < r@.len() implies (#[trigger] r@[i])@.len() == 31
            && netlist::below(r@[i]@, n) by {
            assert(xs@[i]@.len() == 31 && netlist::below(xs@[i]@, n));
        }
        assert forall|c: Netlist, env: Env| #[trigger] values(c, env, r@) == values(
            c,
            env,
            xs@,
        ) by {
            assert(values(c, env, r@) =~= values(c, env, xs@));
        }
    }
    r
}

/// The first eight elements.
proof fn lemma_rate(c: Netlist, env: Env, xs: Seq<Vec<usize>>)
    requires
        xs.len() == 16,
    ensures
        values(c, env, xs.take(8)) == values(c, env, xs).take(8),
{
    assert(values(c, env, xs.take(8)) =~= values(c, env, xs).take(8));
}

/// A Merkle compression: the two 8-element digests as the state, permuted, the
/// first 8 elements out.
pub fn compress<T: CircuitTrait>(b: &mut T, left: &[Fp], right: &[Fp]) -> (r: Vec<Fp>)
    requires
        old(b).inv(),
        left@.len() == 8,
        right@.len() == 8,
        fps_ok(left@, old(b)@.next),
        fps_ok(right@, old(b)@.next),
    ensures
        final(b).inv(),
        netlist::ext(old(b)@, final(b)@),
        r@.len() == 8,
        fps_ok(r@, final(b)@.next),
        forall|env: Env| #[trigger]
            values(final(b)@, env, r@).len() == 8 && (reference::canonical(
                values(old(b)@, env, left@),
            ) && reference::canonical(values(old(b)@, env, right@)) ==> values(
                final(b)@,
                env,
                r@,
            ) == reference::node(
                values(old(b)@, env, left@),
                values(old(b)@, env, right@),
            )),
{
    let ghost first = b@;
    let mut state = copy_fps(left, Ghost(b@.next));
    let mut tail = copy_fps(right, Ghost(b@.next));
    let ghost ls = state@;
    let ghost rs = tail@;
    state.append(&mut tail);
    let ghost st = state@;
    proof {
        assert(st =~= ls + rs);
        assert forall|i: int| 0 <= i < 16 implies (#[trigger] st[i])@.len() == 31
            && netlist::below(st[i]@, first.next) by {
            if i < 8 {
                assert(st[i] == ls[i]);
            } else {
                assert(st[i] == rs[i - 8]);
            }
        }
    }
    permute(b, &mut state);
    let ghost s1 = state@;
    state.truncate(8);
    proof {
        assert(state@ =~= s1.take(8));
        assert forall|i: int| 0 <= i < 8 implies (#[trigger] state@[i])@.len() == 31
            && netlist::below(state@[i]@, b@.next) by {
            assert(state@[i] == s1[i]);
        }
        assert forall|env: Env| #[trigger] values(b@, env, state@).len() == 8 && (
        reference::canonical(values(first, env, left@)) && reference::canonical(
            values(first, env, right@),
        ) ==> values(b@, env, state@) == reference::node(
            values(first, env, left@),
            values(first, env, right@),
        )) by {
            assert(values(b@, env, s1).len() == 16);
            lemma_rate(b@, env, s1);
            let (l, r) = (values(first, env, left@), values(first, env, right@));
            assert(values(first, env, ls) == l);
            assert(values(first, env, rs) == r);
            assert(values(first, env, st) =~= l + r);
            if reference::canonical(l) && reference::canonical(r) {
                assert(reference::canonical(l + r));
            }
        }
    }
    state
}

/// The padding-free sponge over a row: each chunk of 8 overwrites the rate and
/// permutes.
#[verifier::rlimit(80)]
pub fn hash_row<T: CircuitTrait>(b: &mut T, row: &[Fp]) -> (r: Vec<Fp>)
    requires
        old(b).inv(),
        fps_ok(row@, old(b)@.next),
    ensures
        final(b).inv(),
        netlist::ext(old(b)@, final(b)@),
        r@.len() == 8,
        fps_ok(r@, final(b)@.next),
        forall|env: Env| #[trigger]
            values(final(b)@, env, r@).len() == 8 && (reference::canonical(
                values(old(b)@, env, row@),
            ) ==> values(final(b)@, env, r@) == reference::row_digest(
                values(old(b)@, env, row@),
            )),
{
    let ghost first = b@;
    let mut state: Vec<Fp> = Vec::new();
    while state.len() < 16
        invariant
            b.inv(),
            b@ == first,
            state@.len() <= 16,
            fps_ok(state@, first.next),
            forall|env: Env, i: int|
                0 <= i < state@.len() ==> #[trigger] elem(first, env, state@[i]@) == 0,
        decreases 16 - state@.len(),
    {
        let ghost s0 = state@;
        let z = constant(b, 0);
        state.push(z);
        proof {
            assert forall|env: Env, i: int| 0 <= i < state@.len() implies #[trigger] elem(
                first,
                env,
                state@[i]@,
            ) == 0 by {
                if i < s0.len() {
                    assert(state@[i] == s0[i]);
                } else {
                    assert(netlist::bits(first, env, z@).len() == 31);
                }
            }
        }
    }
    let n = row.len();
    let mut at: usize = 0;
    let ghost good = |env: Env| reference::canonical(values(first, env, row@));
    let ghost all = |env: Env| values(first, env, row@);
    proof {
        netlist::lemma_ext_refl(first);
        assert forall|env: Env| #[trigger] values(b@, env, state@).len() == 16 && (good(env) ==> (
        reference::canonical(values(b@, env, state@)) && reference::absorbed(
            values(b@, env, state@),
            all(env).skip(0),
        ) == reference::absorbed(reference::zeros(16), all(env)))) by {
            assert forall|i: int| 0 <= i < 16 implies values(b@, env, state@)[i] == 0 by {
                assert(elem(first, env, state@[i]@) == 0);
            }
            assert(values(b@, env, state@) =~= reference::zeros(16));
            assert(all(env).skip(0) =~= all(env));
        }
    }
    while at < n
        invariant
            b.inv(),
            netlist::ext(first, b@),
            at <= n,
            n == row@.len(),
            fps_ok(row@, first.next),
            state@.len() == 16,
            fps_ok(state@, b@.next),
            good == (|env: Env| reference::canonical(values(first, env, row@))),
            all == (|env: Env| values(first, env, row@)),
            forall|env: Env| #[trigger]
                values(b@, env, state@).len() == 16 && (good(env) ==> (reference::canonical(
                    values(b@, env, state@),
                ) && reference::absorbed(values(b@, env, state@), all(env).skip(at as int))
                    == reference::absorbed(reference::zeros(16), all(env)))),
        decreases n - at,
    {
        let left = n - at;
        let take: usize = if left < 8 {
            left
        } else {
            8
        };
        let ghost c0 = b@;
        let ghost s0 = state@;
        let mut k: usize = 0;
        while k < take
            invariant
                k <= take <= 8,
                at + take <= n,
                n == row@.len(),
                fps_ok(row@, first.next),
                netlist::ext(first, c0),
                s0.len() == 16,
                state@.len() == 16,
                fps_ok(s0, c0.next),
                forall|i: int| 0 <= i < k ==> (#[trigger] state@[i])@ == row@[at + i]@,
                forall|i: int| k <= i < 16 ==> #[trigger] state@[i] == s0[i],
            decreases take - k,
        {
            let ghost now = state@;
            let x = copy_fp(&row[at + k]);
            state.set(k, x);
            proof {
                assert(state@ =~= now.update(k as int, x));
            }
            k = k + 1;
        }
        let ghost s1 = state@;
        proof {
            assert forall|i: int| 0 <= i < 16 implies (#[trigger] s1[i])@.len() == 31
                && netlist::below(s1[i]@, c0.next) by {
                if i < take {
                    assert(row@[at + i]@.len() == 31 && netlist::below(row@[at + i]@, first.next));
                } else {
                    assert(s0[i]@.len() == 31 && netlist::below(s0[i]@, c0.next));
                }
            }
        }
        permute(b, &mut state);
        proof {
            assert forall|env: Env| #[trigger] values(b@, env, state@).len() == 16 && (good(env)
                ==> (reference::canonical(values(b@, env, state@)) && reference::absorbed(
                values(b@, env, state@),
                all(env).skip(at + take),
            ) == reference::absorbed(reference::zeros(16), all(env)))) by {
                assert(values(c0, env, s0).len() == 16);
                if good(env) {
                    let v0 = values(c0, env, s0);
                    let v1 = values(c0, env, s1);
                    let rest = all(env).skip(at as int);
                    lemma_values_ext(first, c0, env, row@);
                    assert forall|i: int| 0 <= i < 16 implies v1[i] == reference::overwritten(
                        v0,
                        rest.take(take as int),
                    )[i] by {
                        if i < take {
                            assert(s1[i]@ == row@[at + i]@);
                            assert(values(c0, env, row@)[at + i] == elem(c0, env, row@[at + i]@));
                        } else {
                            assert(s1[i] == s0[i]);
                        }
                    }
                    assert(v1 =~= reference::overwritten(v0, rest.take(take as int)));
                    assert(reference::canonical(v1)) by {
                        assert forall|i: int| 0 <= i < 16 implies field::canonical(
                            #[trigger] v1[i],
                        ) by {
                            if i < take {
                                assert(v1[i] == all(env)[at + i]);
                            } else {
                                assert(v1[i] == v0[i]);
                            }
                        }
                    }
                    reference::lemma_permutation(v1);
                    if left <= 8 {
                        assert(rest.take(take as int) =~= rest);
                        assert(all(env).skip(at + take) =~= Seq::<int>::empty());
                    } else {
                        assert(rest.skip(8) =~= all(env).skip(at + 8));
                    }
                }
            }
        }
        at = at + take;
    }
    let ghost s1 = state@;
    state.truncate(8);
    proof {
        assert(state@ =~= s1.take(8));
        assert forall|i: int| 0 <= i < 8 implies (#[trigger] state@[i])@.len() == 31
            && netlist::below(state@[i]@, b@.next) by {
            assert(state@[i] == s1[i]);
        }
        assert forall|env: Env| #[trigger] values(b@, env, state@).len() == 8 && (
        reference::canonical(values(first, env, row@)) ==> values(b@, env, state@)
            == reference::row_digest(values(first, env, row@))) by {
            lemma_rate(b@, env, s1);
            assert(values(b@, env, s1).len() == 16);
            assert(good(env) == reference::canonical(values(first, env, row@)));
            assert(all(env).skip(n as int) =~= Seq::<int>::empty());
        }
    }
    state
}

// ---------------------------------------------------------------------------
// The quartic extension, KoalaBear[X]/(X^4 - 3).
// ---------------------------------------------------------------------------

/// An element: its four coefficients, constant first.
pub type Ext = Vec<Fp>;

/// The extension element on wires.
pub open spec fn ext_elem(c: Netlist, env: Env, x: Seq<Vec<usize>>) -> ext4::Quad {
    ext4::Quad {
        a: elem(c, env, x[0]@),
        b: elem(c, env, x[1]@),
        c: elem(c, env, x[2]@),
        d: elem(c, env, x[3]@),
    }
}

/// Coefficient `k` of the first `n` partial products, in row order.
spec fn convolved(x: Seq<int>, y: Seq<int>, k: int, n: nat) -> int
    decreases n,
{
    if n == 0 {
        0
    } else {
        let i = (n - 1) / 4;
        let j = (n - 1) % 4;
        let before = convolved(x, y, k, (n - 1) as nat);
        if i + j == k {
            before + x[i] * y[j]
        } else if i + j == k + 4 {
            before + 3 * (x[i] * y[j])
        } else {
            before
        }
    }
}

proof fn lemma_convolved(x: Seq<int>, y: Seq<int>)
    ensures
        convolved(x, y, 0, 16) == x[0] * y[0] + 3 * (x[1] * y[3] + x[2] * y[2] + x[3] * y[1]),
        convolved(x, y, 1, 16) == x[0] * y[1] + x[1] * y[0] + 3 * (x[2] * y[3] + x[3] * y[2]),
        convolved(x, y, 2, 16) == x[0] * y[2] + x[1] * y[1] + x[2] * y[0] + 3 * (x[3] * y[3]),
        convolved(x, y, 3, 16) == x[0] * y[3] + x[1] * y[2] + x[2] * y[1] + x[3] * y[0],
{
    reveal_with_fuel(convolved, 17);
}

/// Schoolbook over unreduced products: sixteen 31x31 products accumulated into
/// four columns (the wrap-around ones tripled), one reduction each.
#[verifier::rlimit(80)]
pub fn ext_mul<T: CircuitTrait>(b: &mut T, x: &Ext, y: &Ext) -> (r: Ext)
    requires
        old(b).inv(),
        x@.len() == 4,
        y@.len() == 4,
        fps_ok(x@, old(b)@.next),
        fps_ok(y@, old(b)@.next),
    ensures
        final(b).inv(),
        netlist::ext(old(b)@, final(b)@),
        r@.len() == 4,
        fps_ok(r@, final(b)@.next),
        forall|env: Env| #[trigger]
            values(final(b)@, env, r@).len() == 4 && ext_elem(final(b)@, env, r@) == ext4::times(
                ext_elem(old(b)@, env, x@),
                ext_elem(old(b)@, env, y@),
            ),
{
    let ghost first = b@;
    let mut acc: Vec<Cols> = Vec::new();
    acc.push(Cols::default());
    acc.push(Cols::default());
    acc.push(Cols::default());
    acc.push(Cols::default());
    let mut n: usize = 0;
    proof {
        netlist::lemma_ext_refl(first);
    }
    while n < 16
        invariant
            b.inv(),
            netlist::ext(first, b@),
            n <= 16,
            x@.len() == 4,
            y@.len() == 4,
            fps_ok(x@, first.next),
            fps_ok(y@, first.next),
            acc@.len() == 4,
            forall|k: int|
                0 <= k < 4 ==> koala_bits::cols_ok((#[trigger] acc@[k]).cols@, b@.next)
                    && acc@[k].cols@.len() <= 63,
            forall|env: Env, k: int|
                0 <= k < 4 ==> #[trigger] koala_bits::total(b@, env, acc@[k].cols@) == convolved(
                    values(first, env, x@),
                    values(first, env, y@),
                    k,
                    n as nat,
                ),
        decreases 16 - n,
    {
        let i = n / 4;
        let j = n % 4;
        let ghost c0 = b@;
        let ghost acc0 = acc@;
        assert(fp_ok(x@[i as int]@, first.next) && fp_ok(y@[j as int]@, first.next));
        let prod = mul_cols(b, x[i].as_slice(), y[j].as_slice());
        let t: usize = if i + j >= 4 {
            i + j - 4
        } else {
            i + j
        };
        assert(koala_bits::cols_ok(acc@[t as int].cols@, c0.next));
        acc[t].extend(&prod, 0);
        let ghost acc1 = acc@;
        if i + j >= 4 {
            // Three times is once and twice.
            assert(koala_bits::cols_ok(acc@[t as int].cols@, b@.next));
            acc[t].extend(&prod, 1);
        }
        proof {
            vstd::arithmetic::power2::lemma2_to64();
            assert forall|k: int| 0 <= k < 4 implies koala_bits::cols_ok(
                (#[trigger] acc@[k]).cols@,
                b@.next,
            ) && acc@[k].cols@.len() <= 63 by {
                assert(koala_bits::cols_ok(acc0[k].cols@, c0.next) && acc0[k].cols@.len() <= 63);
                koala_bits::lemma_cols_monotone(acc0[k].cols@, c0.next, b@.next);
                if k != t {
                    assert(acc@[k] == acc0[k]);
                }
            }
            assert forall|env: Env, k: int| 0 <= k < 4 implies #[trigger] koala_bits::total(
                b@,
                env,
                acc@[k].cols@,
            ) == convolved(
                values(first, env, x@),
                values(first, env, y@),
                k,
                (n + 1) as nat,
            ) by {
                let (u, v) = (values(first, env, x@), values(first, env, y@));
                assert(koala_bits::cols_ok(acc0[k].cols@, c0.next));
                koala_bits::lemma_total_ext(c0, b@, env, acc0[k].cols@);
                assert(koala_bits::total(c0, env, acc0[k].cols@) == convolved(u, v, k, n as nat));
                assert(netlist::bits(c0, env, x@[i as int]@) == netlist::bits(
                    first,
                    env,
                    x@[i as int]@,
                ));
                assert(netlist::bits(c0, env, y@[j as int]@) == netlist::bits(
                    first,
                    env,
                    y@[j as int]@,
                ));
                let q = koala_bits::total(b@, env, prod.cols@);
                assert(q == u[i as int] * v[j as int]);
                assert(q * pow2(0) == q && q * pow2(1) == 2 * q);
                if k == t {
                    assert(koala_bits::total(b@, env, acc1[k].cols@) == koala_bits::total(
                        b@,
                        env,
                        acc0[k].cols@,
                    ) + q);
                } else {
                    assert(acc@[k] == acc0[k]);
                }
            }
        }
        n = n + 1;
    }
    let ghost c1 = b@;
    let ghost sums = acc@;
    let a3 = take_last(&mut acc);
    let a2 = take_last(&mut acc);
    let a1 = take_last(&mut acc);
    let a0 = take_last(&mut acc);
    proof {
        assert(a0 == sums[0] && a1 == sums[1] && a2 == sums[2] && a3 == sums[3]);
    }
    let r0 = reduce(b, a0, Cols::default());
    let ghost c2 = b@;
    proof {
        koala_bits::lemma_cols_monotone(sums[1].cols@, c1.next, c2.next);
    }
    let r1 = reduce(b, a1, Cols::default());
    let ghost c3 = b@;
    proof {
        koala_bits::lemma_cols_monotone(sums[2].cols@, c1.next, c3.next);
    }
    let r2 = reduce(b, a2, Cols::default());
    let ghost c4 = b@;
    proof {
        koala_bits::lemma_cols_monotone(sums[3].cols@, c1.next, c4.next);
    }
    let r3 = reduce(b, a3, Cols::default());
    let mut r: Ext = Vec::new();
    let ghost rs = (r0, r1, r2, r3);
    r.push(r0);
    r.push(r1);
    r.push(r2);
    r.push(r3);
    proof {
        assert(r@[0] == rs.0 && r@[1] == rs.1 && r@[2] == rs.2 && r@[3] == rs.3);
        assert forall|env: Env| #[trigger] values(b@, env, r@).len() == 4 && ext_elem(b@, env, r@)
            == ext4::times(ext_elem(first, env, x@), ext_elem(first, env, y@)) by {
            let (u, v) = (values(first, env, x@), values(first, env, y@));
            lemma_convolved(u, v);
            assert(koala_bits::total(c1, env, sums[0].cols@) == convolved(u, v, 0, 16));
            assert(koala_bits::total(c1, env, sums[1].cols@) == convolved(u, v, 1, 16));
            assert(koala_bits::total(c1, env, sums[2].cols@) == convolved(u, v, 2, 16));
            assert(koala_bits::total(c1, env, sums[3].cols@) == convolved(u, v, 3, 16));
            koala_bits::lemma_total_ext(c1, c2, env, sums[1].cols@);
            koala_bits::lemma_total_ext(c1, c3, env, sums[2].cols@);
            koala_bits::lemma_total_ext(c1, c4, env, sums[3].cols@);
            assert(netlist::bits(c2, env, rs.0@).len() == 31);
            assert(netlist::bits(c3, env, rs.1@).len() == 31);
            assert(netlist::bits(c4, env, rs.2@).len() == 31);
            assert(netlist::bits(b@, env, rs.3@).len() == 31);
            assert(netlist::bits(b@, env, rs.0@) == netlist::bits(c2, env, rs.0@));
            assert(netlist::bits(b@, env, rs.1@) == netlist::bits(c3, env, rs.1@));
            assert(netlist::bits(b@, env, rs.2@) == netlist::bits(c4, env, rs.2@));
        }
    }
    r
}

/// The last of a list.
fn take_last(acc: &mut Vec<Cols>) -> (c: Cols)
    requires
        old(acc)@.len() > 0,
    ensures
        c == old(acc)@.last(),
        final(acc)@ == old(acc)@.drop_last(),
{
    match acc.pop() {
        Some(c) => c,
        None => Cols::default(),
    }
}

} // verus!

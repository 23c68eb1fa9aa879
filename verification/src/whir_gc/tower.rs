//! Arithmetic in the binary tower as gates.
//!
//! A wire vector is an element's bit pattern, wire `i` being bit `i`.
//! Multiplication is Karatsuba over the tower:
//!
//! ```text
//! z0 = a0 b0    z2 = a1 b1    z1 = (a0 + a1)(b0 + b1) + z0 + z2
//! a b = (z0 + z2) + (z1 + a z2) X
//! ```
//!
//! Additions are XOR and cost nothing under free-XOR; multiplication by the
//! generator is a shuffle and XORs. The only AND gates are the base-field
//! products, three per level, so a `2^k`-bit multiplication is `3^k` ANDs.
use super::field;
use super::gates::CircuitTrait;
use super::netlist;
use super::netlist::{Env, Netlist, Operation};
use vstd::arithmetic::power::pow;
use vstd::arithmetic::power2::{lemma_pow2_pos, pow2};
use vstd::prelude::*;

verus! {

broadcast use netlist::group_netlist;

/// The AND gates of one `n`-bit multiplication.
pub open spec fn and_cost(n: nat) -> nat
    decreases n,
{
    if n <= 1 {
        1
    } else {
        3 * and_cost(n / 2)
    }
}

/// No gate of a product of `x` and `y` folds: the wires of each operand are
/// distinct, none is a constant, and the operands share none.
pub open spec fn separate(x: Seq<usize>, y: Seq<usize>) -> bool {
    &&& forall|i: int| 0 <= i < x.len() ==> (#[trigger] x[i]) >= 2
    &&& forall|i: int| 0 <= i < y.len() ==> (#[trigger] y[i]) >= 2
    &&& forall|i: int, j: int| 0 <= i < j < x.len() ==> (#[trigger] x[i]) != (#[trigger] x[j])
    &&& forall|i: int, j: int| 0 <= i < j < y.len() ==> (#[trigger] y[i]) != (#[trigger] y[j])
    &&& forall|i: int, j: int|
        0 <= i < x.len() && 0 <= j < y.len() ==> (#[trigger] x[i]) != (#[trigger] y[j])
}

pub proof fn lemma_counts_push(gates: Seq<Operation>, g: Operation)
    ensures
        netlist::ands(gates.push(g)) == netlist::ands(gates) + if g is Mul {
            1nat
        } else {
            0nat
        },
        netlist::xors(gates.push(g)) == netlist::xors(gates) + if g is Add {
            1nat
        } else {
            0nat
        },
        netlist::ors(gates.push(g)) == netlist::ors(gates) + if g is Or {
            1nat
        } else {
            0nat
        },
{
    assert(gates.push(g).drop_last() =~= gates);
}

/// A `2^k`-bit multiplication costs `3^k` AND gates.
pub proof fn law_and_cost(k: nat)
    ensures
        and_cost(vstd::arithmetic::power2::pow2(k)) == pow(3, k),
    decreases k,
{
    vstd::arithmetic::power2::lemma_pow2_pos(k);
    if k == 0 {
        vstd::arithmetic::power2::lemma2_to64();
        vstd::arithmetic::power::lemma_pow0(3);
    } else {
        let j = (k - 1) as nat;
        law_and_cost(j);
        vstd::arithmetic::power2::lemma_pow2_unfold(k);
        vstd::arithmetic::power2::lemma_pow2_pos(j);
        assert(vstd::arithmetic::power2::pow2(k) / 2 == vstd::arithmetic::power2::pow2(j));
        reveal(pow);
    }
}

/// Fresh input wires for a `bits`-bit element, bit 0 first.
pub fn fresh<T: CircuitTrait>(b: &mut T, bits: usize) -> (r: Vec<usize>)
    requires
        old(b).inv(),
    ensures
        final(b).inv(),
        r@.len() == bits,
        forall|i: int| 0 <= i < bits ==> #[trigger] r@[i] == old(b)@.next + i,
        final(b)@.next == old(b)@.next + bits,
        final(b)@.gates == old(b)@.gates,
        netlist::ext(old(b)@, final(b)@),
        forall|env: Env| #[trigger]
            netlist::bits(final(b)@, env, r@) == Seq::new(
                bits as nat,
                |i: int| env(old(b)@.next + i),
            ),
{
    let mut r: Vec<usize> = Vec::with_capacity(bits);
    let ghost first = b@;
    proof {
        netlist::lemma_ext_refl(first);
    }
    while r.len() < bits
        invariant
            b.inv(),
            r@.len() <= bits,
            forall|i: int| 0 <= i < r@.len() ==> #[trigger] r@[i] == first.next + i,
            b@.next == first.next + r@.len(),
            b@.gates == first.gates,
            netlist::ext(first, b@),
            forall|env: Env, i: int|
                0 <= i < r@.len() ==> #[trigger] netlist::value(b@, env, first.next + i) == env(
                    first.next + i,
                ),
        decreases bits - r@.len(),
    {
        let ghost c = b@;
        let ghost r0 = r@;
        let w = b.fresh_one();
        r.push(w);
        proof {
            assert forall|env: Env, i: int| 0 <= i < r@.len() implies #[trigger] netlist::value(
                b@,
                env,
                first.next + i,
            ) == env(first.next + i) by {
                if i < r0.len() {
                    assert(netlist::value(c, env, first.next + i) == env(first.next + i));
                }
            }
        }
    }
    proof {
        assert forall|env: Env| #[trigger]
            netlist::bits(b@, env, r@) == Seq::new(bits as nat, |i: int| env(first.next + i)) by {
            assert forall|i: int| 0 <= i < bits implies netlist::bits(b@, env, r@)[i] == env(
                first.next + i,
            ) by {
                assert(netlist::value(b@, env, first.next + i) == env(first.next + i));
                assert(r@[i] as int == first.next + i);
            }
            assert(netlist::bits(b@, env, r@) =~= Seq::new(
                bits as nat,
                |i: int| env(first.next + i),
            ));
        }
    }
    r
}

/// `x + y`: bitwise XOR.
pub fn add<T: CircuitTrait>(b: &mut T, x: &[usize], y: &[usize]) -> (r: Vec<usize>)
    requires
        old(b).inv(),
        x@.len() == y@.len(),
        netlist::below(x@, old(b)@.next),
        netlist::below(y@, old(b)@.next),
    ensures
        final(b).inv(),
        r@.len() == x@.len(),
        netlist::ext(old(b)@, final(b)@),
        netlist::below(r@, final(b)@.next),
        forall|env: Env| #[trigger]
            netlist::bits(final(b)@, env, r@) == field::plus(
                netlist::bits(old(b)@, env, x@),
                netlist::bits(old(b)@, env, y@),
            ),
        netlist::ands(final(b)@.gates) == netlist::ands(old(b)@.gates),
        netlist::ors(final(b)@.gates) == netlist::ors(old(b)@.gates),
        (forall|i: int|
            0 <= i < x@.len() ==> (#[trigger] x@[i]) != y@[i] && x@[i] != 0 && y@[i] != 0) ==> (
        forall|i: int| 0 <= i < x@.len() ==> #[trigger] r@[i] == old(b)@.next + i),
{
    let mut r: Vec<usize> = Vec::with_capacity(x.len());
    let ghost first = b@;
    let ghost fresh = forall|i: int|
        0 <= i < x@.len() ==> (#[trigger] x@[i]) != y@[i] && x@[i] != 0 && y@[i] != 0;
    proof {
        netlist::lemma_ext_refl(first);
    }
    while r.len() < x.len()
        invariant
            b.inv(),
            x@.len() == y@.len(),
            r@.len() <= x@.len(),
            netlist::below(x@, first.next),
            netlist::below(y@, first.next),
            netlist::ext(first, b@),
            netlist::below(r@, b@.next),
            forall|env: Env, i: int|
                0 <= i < r@.len() ==> #[trigger] netlist::value(b@, env, r@[i] as int) == (
                netlist::value(first, env, x@[i] as int) != netlist::value(
                    first,
                    env,
                    y@[i] as int,
                )),
            netlist::ands(b@.gates) == netlist::ands(first.gates),
            netlist::ors(b@.gates) == netlist::ors(first.gates),
            fresh == (forall|i: int|
                0 <= i < x@.len() ==> (#[trigger] x@[i]) != y@[i] && x@[i] != 0 && y@[i] != 0),
            fresh ==> b@.next == first.next + r@.len(),
            fresh ==> forall|i: int| 0 <= i < r@.len() ==> #[trigger] r@[i] == first.next + i,
        decreases x@.len() - r@.len(),
    {
        let k = r.len();
        let ghost c = b@;
        let ghost r0 = r@;
        proof {
            b.lemma_inv();
        }
        let w = b.xor_wire(x[k], y[k]);
        r.push(w);
        proof {
            lemma_counts_push(c.gates, Operation::Add(c.next as usize, x@[k as int], y@[k as int]));
            assert forall|env: Env, i: int| 0 <= i < r@.len() implies #[trigger] netlist::value(
                b@,
                env,
                r@[i] as int,
            ) == (netlist::value(first, env, x@[i] as int) != netlist::value(
                first,
                env,
                y@[i] as int,
            )) by {
                if i < r0.len() {
                    assert(r@[i] == r0[i]);
                    assert(netlist::value(c, env, r0[i] as int) == netlist::value(
                        b@,
                        env,
                        r@[i] as int,
                    ));
                } else {
                    assert(netlist::value(c, env, x@[i] as int) == netlist::value(
                        first,
                        env,
                        x@[i] as int,
                    ));
                    assert(netlist::value(c, env, y@[i] as int) == netlist::value(
                        first,
                        env,
                        y@[i] as int,
                    ));
                }
            }
        }
    }
    proof {
        assert forall|env: Env| #[trigger]
            netlist::bits(b@, env, r@) == field::plus(
                netlist::bits(first, env, x@),
                netlist::bits(first, env, y@),
            ) by {
            assert forall|i: int| 0 <= i < r@.len() implies netlist::bits(b@, env, r@)[i] == (
            netlist::bits(first, env, x@)[i] != netlist::bits(first, env, y@)[i]) by {
                assert(netlist::value(b@, env, r@[i] as int) == (netlist::value(
                    first,
                    env,
                    x@[i] as int,
                ) != netlist::value(first, env, y@[i] as int)));
            }
            assert(netlist::bits(b@, env, r@) =~= field::plus(
                netlist::bits(first, env, x@),
                netlist::bits(first, env, y@),
            ));
        }
    }
    r
}

/// The wires of a slice.
pub(crate) fn copied(x: &[usize]) -> (r: Vec<usize>)
    ensures
        r@ == x@,
{
    let mut r: Vec<usize> = Vec::with_capacity(x.len());
    while r.len() < x.len()
        invariant
            r@.len() <= x@.len(),
            r@ == x@.take(r@.len() as int),
        decreases x@.len() - r@.len(),
    {
        let k = r.len();
        r.push(x[k]);
        assert(x@.take(k + 1) =~= x@.take(k as int).push(x@[k as int]));
    }
    assert(x@.take(x@.len() as int) =~= x@);
    r
}

/// The two halves' wires, low half first.
fn joined(x: &[usize], y: Vec<usize>) -> (r: Vec<usize>)
    ensures
        r@ == x@ + y@,
{
    let mut r = copied(x);
    let mut y = y;
    r.append(&mut y);
    r
}

/// The values of a split wire vector are the halves of its value.
proof fn lemma_split(c: Netlist, env: Env, x: Seq<usize>)
    ensures
        netlist::bits(c, env, x.take((x.len() / 2) as int)) == field::lo(
            netlist::bits(c, env, x),
        ),
        netlist::bits(c, env, x.skip((x.len() / 2) as int)) == field::hi(
            netlist::bits(c, env, x),
        ),
{
    assert(netlist::bits(c, env, x.take((x.len() / 2) as int)) =~= field::lo(
        netlist::bits(c, env, x),
    ));
    assert(netlist::bits(c, env, x.skip((x.len() / 2) as int)) =~= field::hi(
        netlist::bits(c, env, x),
    ));
}

/// The value of a concatenation is the concatenation of the values.
pub proof fn lemma_concat(c: Netlist, env: Env, x: Seq<usize>, y: Seq<usize>)
    ensures
        netlist::bits(c, env, x + y) == netlist::bits(c, env, x) + netlist::bits(c, env, y),
{
    assert(netlist::bits(c, env, x + y) =~= netlist::bits(c, env, x) + netlist::bits(c, env, y));
}

/// Multiplication by the generator of `c`'s level; the identity on `GF(2)`.
pub fn mul_alpha<T: CircuitTrait>(b: &mut T, c: &[usize]) -> (r: Vec<usize>)
    requires
        old(b).inv(),
        field::level(c@.len()),
        netlist::below(c@, old(b)@.next),
    ensures
        final(b).inv(),
        r@.len() == c@.len(),
        netlist::ext(old(b)@, final(b)@),
        netlist::below(r@, final(b)@.next),
        forall|env: Env| #[trigger]
            netlist::bits(final(b)@, env, r@) == field::alpha(netlist::bits(old(b)@, env, c@)),
        netlist::ands(final(b)@.gates) == netlist::ands(old(b)@.gates),
        netlist::ors(final(b)@.gates) == netlist::ors(old(b)@.gates),
    decreases c@.len(),
{
    let n = c.len();
    let ghost first = b@;
    proof {
        netlist::lemma_ext_refl(first);
    }
    if n == 1 {
        return copied(c);
    }
    let (c0, c1) = c.split_at(n / 2);
    let alpha_c1 = mul_alpha(b, c1);
    let ghost mid = b@;
    let hi = self::add(b, c0, alpha_c1.as_slice());
    let r = joined(c1, hi);
    proof {
        assert forall|env: Env| #[trigger]
            netlist::bits(b@, env, r@) == field::alpha(netlist::bits(first, env, c@)) by {
            let v = netlist::bits(first, env, c@);
            lemma_split(first, env, c@);
            lemma_concat(b@, env, c1@, hi@);
            assert(netlist::bits(mid, env, alpha_c1@) == field::alpha(field::hi(v)));
            assert(netlist::bits(mid, env, c0@) == field::lo(v));
            assert(netlist::bits(b@, env, c1@) == field::hi(v));
            assert(netlist::bits(b@, env, hi@) == field::plus(
                field::lo(v),
                field::alpha(field::hi(v)),
            ));
        }
    }
    r
}

proof fn lemma_separate_halves(x: Seq<usize>, y: Seq<usize>)
    requires
        separate(x, y),
        x.len() == y.len(),
    ensures
        ({
            let m = (x.len() / 2) as int;
            &&& separate(x.take(m), y.take(m))
            &&& separate(x.skip(m), y.skip(m))
        }),
{
    let m = (x.len() / 2) as int;
    let (a0, a1) = (x.take(m), x.skip(m));
    let (b0, b1) = (y.take(m), y.skip(m));
    assert forall|i: int, j: int| 0 <= i < j < a1.len() implies (#[trigger] a1[i]) != (
    #[trigger] a1[j]) by {
        assert(x[i + m] != x[j + m]);
    }
    assert forall|i: int, j: int| 0 <= i < j < b1.len() implies (#[trigger] b1[i]) != (
    #[trigger] b1[j]) by {
        assert(y[i + m] != y[j + m]);
    }
    assert forall|i: int, j: int| 0 <= i < a1.len() && 0 <= j < b1.len() implies (
    #[trigger] a1[i]) != (#[trigger] b1[j]) by {
        assert(x[i + m] != y[j + m]);
    }
}

/// `x y`, by Karatsuba.
pub fn mul<T: CircuitTrait>(b: &mut T, x: &[usize], y: &[usize]) -> (r: Vec<usize>)
    requires
        old(b).inv(),
        x@.len() == y@.len(),
        field::level(x@.len()),
        netlist::below(x@, old(b)@.next),
        netlist::below(y@, old(b)@.next),
    ensures
        final(b).inv(),
        r@.len() == x@.len(),
        netlist::ext(old(b)@, final(b)@),
        netlist::below(r@, final(b)@.next),
        forall|env: Env| #[trigger]
            netlist::bits(final(b)@, env, r@) == field::times(
                netlist::bits(old(b)@, env, x@),
                netlist::bits(old(b)@, env, y@),
            ),
        netlist::ands(final(b)@.gates) <= netlist::ands(old(b)@.gates) + and_cost(x@.len()),
        separate(x@, y@) ==> netlist::ands(final(b)@.gates) == netlist::ands(old(b)@.gates)
            + and_cost(x@.len()),
        netlist::ors(final(b)@.gates) == netlist::ors(old(b)@.gates),
    decreases x@.len(),
{
    let n = x.len();
    let ghost first = b@;
    proof {
        b.lemma_inv();
    }
    if n == 1 {
        let w = b.and_wire(x[0], y[0]);
        let mut r: Vec<usize> = Vec::with_capacity(1);
        r.push(w);
        proof {
            lemma_counts_push(first.gates, Operation::Mul(first.next as usize, x@[0], y@[0]));
            assert forall|env: Env| #[trigger]
                netlist::bits(b@, env, r@) == field::times(
                    netlist::bits(first, env, x@),
                    netlist::bits(first, env, y@),
                ) by {
                assert(netlist::value(b@, env, w as int) == (netlist::value(
                    first,
                    env,
                    x@[0] as int,
                ) && netlist::value(first, env, y@[0] as int)));
                assert(netlist::bits(b@, env, r@) =~= field::times(
                    netlist::bits(first, env, x@),
                    netlist::bits(first, env, y@),
                ));
            }
        }
        return r;
    }
    let (a0, a1) = x.split_at(n / 2);
    let (b0, b1) = y.split_at(n / 2);
    let z0 = self::mul(b, a0, b0);
    let ghost c1 = b@;
    let z2 = self::mul(b, a1, b1);
    let ghost c2 = b@;
    let s = self::add(b, a0, a1);
    let ghost c3 = b@;
    let t = self::add(b, b0, b1);
    let ghost c4 = b@;
    let st = self::mul(b, s.as_slice(), t.as_slice());
    let ghost c5 = b@;
    let st_z0 = self::add(b, st.as_slice(), z0.as_slice());
    let ghost c6 = b@;
    let z1 = self::add(b, st_z0.as_slice(), z2.as_slice());
    let ghost c7 = b@;
    let lo = self::add(b, z0.as_slice(), z2.as_slice());
    let ghost c8 = b@;
    let alpha_z2 = mul_alpha(b, z2.as_slice());
    let ghost c9 = b@;
    let hi = self::add(b, z1.as_slice(), alpha_z2.as_slice());
    let r = joined(lo.as_slice(), hi);
    proof {
        if separate(x@, y@) {
            lemma_separate_halves(x@, y@);
            let m = (n / 2) as int;
            assert forall|i: int| 0 <= i < a0@.len() implies (#[trigger] a0@[i]) != a1@[i] by {
                assert(x@[i] != x@[i + m]);
            }
            assert forall|i: int| 0 <= i < b0@.len() implies (#[trigger] b0@[i]) != b1@[i] by {
                assert(y@[i] != y@[i + m]);
            }
            assert(separate(s@, t@)) by {
                assert forall|i: int, j: int| 0 <= i < s@.len() && 0 <= j < t@.len() implies (
                #[trigger] s@[i]) != (#[trigger] t@[j]) by {
                    assert(s@[i] < c3.next);
                    assert(t@[j] == c3.next + j);
                }
            }
        }
        assert forall|env: Env| #[trigger]
            netlist::bits(b@, env, r@) == field::times(
                netlist::bits(first, env, x@),
                netlist::bits(first, env, y@),
            ) by {
            let p = netlist::bits(first, env, x@);
            let q = netlist::bits(first, env, y@);
            lemma_split(first, env, x@);
            lemma_split(first, env, y@);
            field::lemma_halves(p);
            field::lemma_halves(q);
            let (p0, p1) = (field::lo(p), field::hi(p));
            let (q0, q1) = (field::lo(q), field::hi(q));
            let v0 = field::times(p0, q0);
            let v2 = field::times(p1, q1);
            assert(netlist::bits(c1, env, z0@) == v0);
            assert(netlist::bits(c2, env, z2@) == v2);
            assert(netlist::bits(c3, env, s@) == field::plus(p0, p1));
            assert(netlist::bits(c4, env, t@) == field::plus(q0, q1));
            assert(netlist::bits(c4, env, s@) == field::plus(p0, p1));
            let vst = field::times(field::plus(p0, p1), field::plus(q0, q1));
            assert(netlist::bits(c5, env, st@) == vst);
            assert(netlist::bits(c5, env, z0@) == v0);
            assert(netlist::bits(c6, env, st_z0@) == field::plus(vst, v0));
            assert(netlist::bits(c6, env, z2@) == v2);
            assert(netlist::bits(c7, env, z1@) == field::plus(field::plus(vst, v0), v2));
            field::law_karatsuba(p0, p1, q0, q1);
            assert(netlist::bits(c8, env, lo@) == field::plus(v0, v2));
            assert(netlist::bits(c9, env, alpha_z2@) == field::alpha(v2));
            assert(netlist::bits(c9, env, z1@) == field::plus(field::plus(vst, v0), v2));
            lemma_concat(b@, env, lo@, hi@);
        }
    }
    r
}

/// `x^2`: no AND gates at all, since squaring `GF(2)` is the identity.
pub fn square<T: CircuitTrait>(b: &mut T, x: &[usize]) -> (r: Vec<usize>)
    requires
        old(b).inv(),
        field::level(x@.len()),
        netlist::below(x@, old(b)@.next),
    ensures
        final(b).inv(),
        r@.len() == x@.len(),
        netlist::ext(old(b)@, final(b)@),
        netlist::below(r@, final(b)@.next),
        forall|env: Env| #[trigger]
            netlist::bits(final(b)@, env, r@) == field::times(
                netlist::bits(old(b)@, env, x@),
                netlist::bits(old(b)@, env, x@),
            ),
        netlist::ands(final(b)@.gates) == netlist::ands(old(b)@.gates),
        netlist::ors(final(b)@.gates) == netlist::ors(old(b)@.gates),
    decreases x@.len(),
{
    let n = x.len();
    let ghost first = b@;
    if n == 1 {
        let r = copied(x);
        proof {
            netlist::lemma_ext_refl(first);
            assert forall|env: Env| #[trigger]
                netlist::bits(b@, env, r@) == field::times(
                    netlist::bits(first, env, x@),
                    netlist::bits(first, env, x@),
                ) by {
                assert(netlist::bits(b@, env, r@) =~= field::times(
                    netlist::bits(first, env, x@),
                    netlist::bits(first, env, x@),
                ));
            }
        }
        return r;
    }
    let (a0, a1) = x.split_at(n / 2);
    let a0_sq = square(b, a0);
    let ghost c1 = b@;
    let a1_sq = square(b, a1);
    let ghost c2 = b@;
    let lo = self::add(b, a0_sq.as_slice(), a1_sq.as_slice());
    let ghost c3 = b@;
    let hi = mul_alpha(b, a1_sq.as_slice());
    let r = joined(lo.as_slice(), hi);
    proof {
        assert forall|env: Env| #[trigger]
            netlist::bits(b@, env, r@) == field::times(
                netlist::bits(first, env, x@),
                netlist::bits(first, env, x@),
            ) by {
            let p = netlist::bits(first, env, x@);
            lemma_split(first, env, x@);
            field::lemma_halves(p);
            field::law_square(p);
            let v0 = field::times(field::lo(p), field::lo(p));
            let v1 = field::times(field::hi(p), field::hi(p));
            assert(netlist::bits(c2, env, a0_sq@) == v0);
            assert(netlist::bits(c2, env, a1_sq@) == v1);
            assert(netlist::bits(c3, env, a1_sq@) == v1);
            assert(netlist::bits(c3, env, lo@) == field::plus(v0, v1));
            lemma_concat(b@, env, lo@, hi@);
        }
    }
    r
}

/// Wires driven by the bits of a constant.
pub fn constant<T: CircuitTrait>(b: &mut T, value: u128, bits: usize) -> (r: Vec<usize>)
    requires
        old(b).inv(),
        bits <= 128,
    ensures
        final(b).inv(),
        final(b)@ == old(b)@,
        r@ == Seq::new(
            bits as nat,
            |i: int|
                if field::bit(value, i) {
                    1usize
                } else {
                    0usize
                },
        ),
        netlist::below(r@, final(b)@.next),
        forall|env: Env| #[trigger]
            netlist::bits(final(b)@, env, r@) == field::bits_of(value, bits as nat),
{
    let zero = b.zero();
    let one = b.one();
    let mut r: Vec<usize> = Vec::with_capacity(bits);
    while r.len() < bits
        invariant
            zero == 0,
            one == 1,
            bits <= 128,
            r@.len() <= bits,
            forall|i: int|
                0 <= i < r@.len() ==> #[trigger] r@[i] == if field::bit(value, i) {
                    1usize
                } else {
                    0usize
                },
        decreases bits - r@.len(),
    {
        let k: u128 = r.len() as u128;
        let w = if (value >> k) & 1 == 1 {
            one
        } else {
            zero
        };
        r.push(w);
    }
    proof {
        b.lemma_inv();
        assert(r@ =~= Seq::new(
            bits as nat,
            |i: int|
                if field::bit(value, i) {
                    1usize
                } else {
                    0usize
                },
        ));
        assert forall|env: Env| #[trigger]
            netlist::bits(b@, env, r@) == field::bits_of(value, bits as nat) by {
            netlist::lemma_constants(b@, env);
            assert(netlist::bits(b@, env, r@) =~= field::bits_of(value, bits as nat));
        }
    }
    r
}

/// The bits of a `bits`-wide value, bit 0 first, as a witness.
pub fn witness_bits(value: u128, bits: usize) -> (r: Vec<bool>)
    requires
        bits <= 128,
    ensures
        r@ == field::bits_of(value, bits as nat),
{
    let mut r: Vec<bool> = Vec::new();
    while r.len() < bits
        invariant
            bits <= 128,
            r@.len() <= bits,
            forall|i: int| 0 <= i < r@.len() ==> #[trigger] r@[i] == field::bit(value, i),
        decreases bits - r@.len(),
    {
        let k: u128 = r.len() as u128;
        r.push((value >> k) & 1 == 1);
    }
    assert(r@ =~= field::bits_of(value, bits as nat));
    r
}

pub proof fn lemma_set_bit(acc: u128, k: u128, k1: u128, v: u128, i: u128)
    by (bit_vector)
    requires
        k < 128,
        k1 == k + 1,
        i < 128,
        v == 0 || v == 1,
        acc >> k == 0,
    ensures
        ((acc | (v << k)) >> i) & 1 == (if i == k {
            v
        } else {
            (acc >> i) & 1
        }),
        k < 127 ==> (acc | (v << k)) >> k1 == 0,
{
}

/// `v` is the value on the wires of `elem`, bit 0 first.
pub open spec fn reads(v: u128, wires: Seq<bool>, elem: Seq<usize>) -> bool {
    forall|i: int|
        0 <= i < 128 ==> #[trigger] field::bit(v, i) == (i < elem.len() && wires[elem[i] as int])
}

/// A bit is a digit of the binary expansion.
proof fn lemma_digit(x: u128, i: nat)
    requires
        i < 128,
    ensures
        field::bit(x, i as int) == ((x as int / (pow2(i) as int)) % 2 == 1),
{
    vstd::bits::lemma_u128_shr_is_div(x, i as u128);
    let y = x >> (i as u128);
    assert(y & 1 == y % 2) by (bit_vector);
}

/// The low digits of a number are those of its residue.
proof fn lemma_low_digit(x: int, b: nat, i: nat)
    requires
        0 <= x,
        i < b,
    ensures
        (x % (pow2(b) as int)) / (pow2(i) as int) % 2 == (x / (pow2(i) as int)) % 2,
{
    let j = (b - i - 1) as nat;
    let (w, lo, hi) = (pow2(b) as int, pow2(i) as int, pow2(j) as int);
    lemma_pow2_pos(i);
    lemma_pow2_pos(b);
    vstd::arithmetic::power2::lemma_pow2_adds(i, (j + 1) as nat);
    vstd::arithmetic::power2::lemma_pow2_unfold((j + 1) as nat);
    vstd::arithmetic::div_mod::lemma_fundamental_div_mod(x, w);
    let (q, r) = (x / w, x % w);
    let m = q * hi;
    assert(x == r + (2 * m) * lo) by (nonlinear_arith)
        requires
            x == w * q + r,
            w == lo * (2 * hi),
            m == q * hi,
    ;
    vstd::arithmetic::div_mod::lemma_hoist_over_denominator(r, 2 * m, lo as nat);
    vstd::arithmetic::div_mod::lemma_mod_multiples_vanish(m, r / lo, 2);
}

/// The witness of a value, read back wire by wire, is the value's low bits.
pub proof fn law_witness_reads_back(value: u128, bits: nat, v: u128)
    requires
        bits <= 128,
        reads(
            v,
            field::bits_of(value, bits),
            Seq::new(bits, |i: int| i as usize),
        ),
    ensures
        v as int == value as int % (pow2(bits) as int),
{
    let wires = field::bits_of(value, bits);
    let elem = Seq::new(bits, |i: int| i as usize);
    let w = pow2(bits) as int;
    lemma_pow2_pos(bits);
    vstd::arithmetic::div_mod::lemma_mod_bound(value as int, w);
    vstd::arithmetic::div_mod::lemma_mod_decreases(value as nat, w as nat);
    let low = (value as int % w) as u128;
    assert forall|i: int| 0 <= i < 128 implies field::bit(v, i) == field::bit(low, i) by {
        lemma_digit(low, i as nat);
        lemma_digit(value, i as nat);
        if i < bits {
            assert(wires[elem[i] as int] == field::bit(value, i));
            lemma_low_digit(value as int, bits, i as nat);
        } else {
            lemma_pow2_pos(i as nat);
            if bits < i {
                vstd::arithmetic::power2::lemma_pow2_strictly_increases(bits, i as nat);
            }
            vstd::arithmetic::div_mod::lemma_basic_div(low as int, pow2(i as nat) as int);
        }
    }
    assert(field::bits_of(v, 128) =~= field::bits_of(low, 128));
    field::lemma_bits_injective(v, low);
}

/// Read a value back from evaluated wires.
pub fn read(wires: &[bool], elem: &[usize]) -> (v: u128)
    requires
        elem@.len() <= 128,
        forall|i: int| 0 <= i < elem@.len() ==> (#[trigger] elem@[i]) < wires@.len(),
    ensures
        reads(v, wires@, elem@),
{
    let mut acc: u128 = 0;
    let mut k: usize = 0;
    proof {
        assert forall|i: int| 0 <= i < 128 implies !field::bit(acc, i) by {
            let j = i as u128;
            assert((0u128 >> j) & 1 == 0) by (bit_vector);
        }
        assert(0u128 >> 0u128 == 0u128) by (bit_vector);
    }
    while k < elem.len()
        invariant
            k <= elem@.len() <= 128,
            forall|i: int| 0 <= i < elem@.len() ==> (#[trigger] elem@[i]) < wires@.len(),
            k < 128 ==> acc >> (k as u128) == 0,
            forall|i: int|
                0 <= i < 128 ==> #[trigger] field::bit(acc, i) == (i < k
                    && wires@[elem@[i] as int]),
        decreases elem@.len() - k,
    {
        let bit: u128 = if wires[elem[k]] {
            1
        } else {
            0
        };
        let ghost acc0 = acc;
        acc = acc | (bit << (k as u128));
        proof {
            lemma_set_bit(acc0, k as u128, (k + 1) as u128, bit, 0);
            assert forall|i: int| 0 <= i < 128 implies #[trigger] field::bit(acc, i) == (i < k + 1
                && wires@[elem@[i] as int]) by {
                lemma_set_bit(acc0, k as u128, (k + 1) as u128, bit, i as u128);
                assert(field::bit(acc0, i) == (i < k && wires@[elem@[i] as int]));
            }
        }
        k = k + 1;
    }
    acc
}

} // verus!

//! Gadgets on wires: bit helpers, and the verifier's field arithmetic on
//! elements of 128 wires.
use super::bytes;
use super::field;
use super::field::F;
use super::gates::CircuitTrait;
use super::netlist;
use super::netlist::{Env, Netlist};
use super::protocol;
use super::tower;
use vstd::prelude::*;

verus! {

broadcast use netlist::group_netlist;

/// A field element: 128 wires, bit `i` of the little-endian representation.
pub type Elem = Vec<usize>;

/// 128 allocated wires.
pub open spec fn elem_ok(x: Seq<usize>, n: nat) -> bool {
    x.len() == 128 && netlist::below(x, n)
}

/// Elements of allocated wires.
pub open spec fn elems_ok(xs: Seq<Vec<usize>>, n: nat) -> bool {
    netlist::all_below(xs, 128, n)
}

pub(crate) fn not<T: CircuitTrait>(b: &mut T, x: usize) -> (w: usize)
    requires
        old(b).inv(),
        x < old(b)@.next,
    ensures
        final(b).inv(),
        netlist::ext(old(b)@, final(b)@),
        w < final(b)@.next,
        forall|env: Env| #[trigger]
            netlist::value(final(b)@, env, w as int) == !netlist::value(old(b)@, env, x as int),
{
    let one = b.one();
    let ghost first = b@;
    proof {
        b.lemma_inv();
        assert forall|env: Env| #[trigger] netlist::value(first, env, one as int) == true by {
            netlist::lemma_constants(first, env);
        }
    }
    b.xor_wire(x, one)
}

/// The disjunction of some bits.
pub open spec fn any(s: Seq<bool>) -> bool {
    exists|i: int| 0 <= i < s.len() && #[trigger] s[i]
}

/// The conjunction of some bits.
pub open spec fn all(s: Seq<bool>) -> bool {
    forall|i: int| 0 <= i < s.len() ==> #[trigger] s[i]
}

proof fn lemma_any_push(s: Seq<bool>, k: int)
    requires
        0 <= k < s.len(),
    ensures
        any(s.take(k + 1)) == (any(s.take(k)) || s[k]),
        all(s.take(k + 1)) == (all(s.take(k)) && s[k]),
{
    let a = s.take(k);
    let b = s.take(k + 1);
    assert(forall|i: int| 0 <= i < k ==> a[i] == #[trigger] b[i]);
    assert(b[k] == s[k]);
    if any(a) {
        let i = choose|i: int| 0 <= i < a.len() && #[trigger] a[i];
        assert(b[i]);
    }
    if all(b) {
        assert forall|i: int| 0 <= i < a.len() implies #[trigger] a[i] by {
            assert(b[i]);
        }
    }
    if all(a) && s[k] {
        assert forall|i: int| 0 <= i < b.len() implies #[trigger] b[i] by {
            if i < k {
                assert(a[i]);
            }
        }
    }
}

pub(crate) fn or_all<T: CircuitTrait>(b: &mut T, xs: &[usize]) -> (w: usize)
    requires
        old(b).inv(),
        netlist::below(xs@, old(b)@.next),
    ensures
        final(b).inv(),
        netlist::ext(old(b)@, final(b)@),
        w < final(b)@.next,
        forall|env: Env| #[trigger]
            netlist::value(final(b)@, env, w as int) == any(netlist::bits(old(b)@, env, xs@)),
{
    let ghost first = b@;
    let mut acc = b.zero();
    proof {
        b.lemma_inv();
        netlist::lemma_ext_refl(first);
        assert forall|env: Env| #[trigger] netlist::value(b@, env, acc as int) == any(
            netlist::bits(first, env, xs@).take(0),
        ) by {
            netlist::lemma_constants(first, env);
        }
    }
    let mut k: usize = 0;
    while k < xs.len()
        invariant
            b.inv(),
            k <= xs@.len(),
            netlist::below(xs@, first.next),
            netlist::ext(first, b@),
            acc < b@.next,
            forall|env: Env| #[trigger]
                netlist::value(b@, env, acc as int) == any(
                    netlist::bits(first, env, xs@).take(k as int),
                ),
        decreases xs@.len() - k,
    {
        let ghost c = b@;
        let ghost acc0 = acc;
        acc = b.or_wire(acc, xs[k]);
        proof {
            assert forall|env: Env| #[trigger] netlist::value(b@, env, acc as int) == any(
                netlist::bits(first, env, xs@).take(k + 1),
            ) by {
                let s = netlist::bits(first, env, xs@);
                lemma_any_push(s, k as int);
                assert(netlist::value(c, env, acc0 as int) == any(s.take(k as int)));
                assert(netlist::value(c, env, xs@[k as int] as int) == s[k as int]);
            }
        }
        k = k + 1;
    }
    proof {
        assert forall|env: Env| #[trigger] netlist::value(b@, env, acc as int) == any(
            netlist::bits(first, env, xs@),
        ) by {
            let s = netlist::bits(first, env, xs@);
            assert(s.take(xs@.len() as int) =~= s);
        }
    }
    acc
}

pub(crate) fn and_all<T: CircuitTrait>(b: &mut T, xs: &[usize]) -> (w: usize)
    requires
        old(b).inv(),
        netlist::below(xs@, old(b)@.next),
    ensures
        final(b).inv(),
        netlist::ext(old(b)@, final(b)@),
        w < final(b)@.next,
        forall|env: Env| #[trigger]
            netlist::value(final(b)@, env, w as int) == all(netlist::bits(old(b)@, env, xs@)),
{
    let ghost first = b@;
    let mut acc = b.one();
    proof {
        b.lemma_inv();
        netlist::lemma_ext_refl(first);
        assert forall|env: Env| #[trigger] netlist::value(b@, env, acc as int) == all(
            netlist::bits(first, env, xs@).take(0),
        ) by {
            netlist::lemma_constants(first, env);
        }
    }
    let mut k: usize = 0;
    while k < xs.len()
        invariant
            b.inv(),
            k <= xs@.len(),
            netlist::below(xs@, first.next),
            netlist::ext(first, b@),
            acc < b@.next,
            forall|env: Env| #[trigger]
                netlist::value(b@, env, acc as int) == all(
                    netlist::bits(first, env, xs@).take(k as int),
                ),
        decreases xs@.len() - k,
    {
        let ghost c = b@;
        let ghost acc0 = acc;
        acc = b.and_wire(acc, xs[k]);
        proof {
            assert forall|env: Env| #[trigger] netlist::value(b@, env, acc as int) == all(
                netlist::bits(first, env, xs@).take(k + 1),
            ) by {
                let s = netlist::bits(first, env, xs@);
                lemma_any_push(s, k as int);
                assert(netlist::value(c, env, acc0 as int) == all(s.take(k as int)));
                assert(netlist::value(c, env, xs@[k as int] as int) == s[k as int]);
            }
        }
        k = k + 1;
    }
    proof {
        assert forall|env: Env| #[trigger] netlist::value(b@, env, acc as int) == all(
            netlist::bits(first, env, xs@),
        ) by {
            let s = netlist::bits(first, env, xs@);
            assert(s.take(xs@.len() as int) =~= s);
        }
    }
    acc
}

/// 1 iff the two wire vectors carry the same bits.
pub(crate) fn equal<T: CircuitTrait>(b: &mut T, x: &[usize], y: &[usize]) -> (w: usize)
    requires
        old(b).inv(),
        x@.len() == y@.len(),
        netlist::below(x@, old(b)@.next),
        netlist::below(y@, old(b)@.next),
    ensures
        final(b).inv(),
        netlist::ext(old(b)@, final(b)@),
        w < final(b)@.next,
        forall|env: Env| #[trigger]
            netlist::value(final(b)@, env, w as int) == (netlist::bits(old(b)@, env, x@)
                == netlist::bits(old(b)@, env, y@)),
{
    let ghost first = b@;
    let diff = tower::add(b, x, y);
    let ghost c1 = b@;
    let some = or_all(b, diff.as_slice());
    let ghost c2 = b@;
    let w = not(b, some);
    proof {
        assert forall|env: Env| #[trigger] netlist::value(b@, env, w as int) == (netlist::bits(
            first,
            env,
            x@,
        ) == netlist::bits(first, env, y@)) by {
            let p = netlist::bits(first, env, x@);
            let q = netlist::bits(first, env, y@);
            let d = netlist::bits(c1, env, diff@);
            assert(d == field::plus(p, q));
            assert(netlist::value(c2, env, some as int) == any(d));
            if p == q {
                assert forall|i: int| 0 <= i < d.len() implies !#[trigger] d[i] by {}
            } else {
                if !any(d) {
                    assert forall|i: int| 0 <= i < p.len() implies p[i] == q[i] by {
                        assert(!d[i]);
                    }
                    assert(p =~= q);
                }
            }
        }
    }
    w
}

/// `sel ? y : x`, bit by bit: `x ^ (sel & (x ^ y))`, one AND per bit.
pub(crate) fn mux<T: CircuitTrait>(b: &mut T, sel: usize, x: &[usize], y: &[usize]) -> (r: Vec<
    usize,
>)
    requires
        old(b).inv(),
        sel < old(b)@.next,
        x@.len() == y@.len(),
        netlist::below(x@, old(b)@.next),
        netlist::below(y@, old(b)@.next),
    ensures
        final(b).inv(),
        netlist::ext(old(b)@, final(b)@),
        r@.len() == x@.len(),
        netlist::below(r@, final(b)@.next),
        forall|env: Env| #[trigger]
            netlist::bits(final(b)@, env, r@) == (if netlist::value(old(b)@, env, sel as int) {
                netlist::bits(old(b)@, env, y@)
            } else {
                netlist::bits(old(b)@, env, x@)
            }),
{
    let ghost first = b@;
    let mut r: Vec<usize> = Vec::with_capacity(x.len());
    proof {
        netlist::lemma_ext_refl(first);
    }
    while r.len() < x.len()
        invariant
            b.inv(),
            sel < first.next,
            x@.len() == y@.len(),
            r@.len() <= x@.len(),
            netlist::below(x@, first.next),
            netlist::below(y@, first.next),
            netlist::ext(first, b@),
            netlist::below(r@, b@.next),
            forall|env: Env, i: int|
                0 <= i < r@.len() ==> #[trigger] netlist::value(b@, env, r@[i] as int) == (
                if netlist::value(first, env, sel as int) {
                    netlist::value(first, env, y@[i] as int)
                } else {
                    netlist::value(first, env, x@[i] as int)
                }),
        decreases x@.len() - r@.len(),
    {
        let k = r.len();
        let ghost c0 = b@;
        let ghost r0 = r@;
        let d = b.xor_wire(x[k], y[k]);
        let ghost c1 = b@;
        let t = b.and_wire(sel, d);
        let ghost c2 = b@;
        let w = b.xor_wire(x[k], t);
        r.push(w);
        proof {
            assert forall|env: Env, i: int| 0 <= i < r@.len() implies #[trigger] netlist::value(
                b@,
                env,
                r@[i] as int,
            ) == (if netlist::value(first, env, sel as int) {
                netlist::value(first, env, y@[i] as int)
            } else {
                netlist::value(first, env, x@[i] as int)
            }) by {
                if i < k {
                    assert(r@[i] == r0[i]);
                    assert(netlist::value(c0, env, r0[i] as int) == netlist::value(
                        b@,
                        env,
                        r@[i] as int,
                    ));
                } else {
                    let vx = netlist::value(first, env, x@[i] as int);
                    assert(netlist::value(c0, env, x@[i] as int) == vx);
                    assert(netlist::value(c0, env, y@[i] as int) == netlist::value(
                        first,
                        env,
                        y@[i] as int,
                    ));
                    assert(netlist::value(c1, env, sel as int) == netlist::value(
                        first,
                        env,
                        sel as int,
                    ));
                    assert(netlist::value(c2, env, x@[i] as int) == vx);
                }
            }
        }
    }
    proof {
        assert forall|env: Env| #[trigger] netlist::bits(b@, env, r@) == (if netlist::value(
            first,
            env,
            sel as int,
        ) {
            netlist::bits(first, env, y@)
        } else {
            netlist::bits(first, env, x@)
        }) by {
            let want = if netlist::value(first, env, sel as int) {
                netlist::bits(first, env, y@)
            } else {
                netlist::bits(first, env, x@)
            };
            assert forall|i: int| 0 <= i < r@.len() implies netlist::bits(b@, env, r@)[i]
                == want[i] by {
                assert(netlist::value(b@, env, r@[i] as int) == want[i]);
            }
            assert(netlist::bits(b@, env, r@) =~= want);
        }
    }
    r
}

/// Wires driven by constant bytes, eight to a byte.
pub(crate) fn const_bytes<T: CircuitTrait>(b: &mut T, bytes: &[u8]) -> (r: Vec<usize>)
    requires
        old(b).inv(),
    ensures
        final(b).inv(),
        final(b)@ == old(b)@,
        r@.len() == 8 * bytes@.len(),
        netlist::below(r@, final(b)@.next),
        forall|env: Env| #[trigger]
            netlist::bits(final(b)@, env, r@) == bytes::bits_of_bytes(bytes@),
{
    let zero = b.zero();
    let one = b.one();
    let ghost all = bytes::bits_of_bytes(bytes@);
    let mut r: Vec<usize> = Vec::new();
    let mut k: usize = 0;
    while k < bytes.len()
        invariant
            k <= bytes@.len(),
            zero == 0,
            one == 1,
            all == bytes::bits_of_bytes(bytes@),
            r@.len() == 8 * k,
            forall|i: int|
                0 <= i < r@.len() ==> #[trigger] r@[i] == (if all[i] {
                    1usize
                } else {
                    0usize
                }),
        decreases bytes@.len() - k,
    {
        let byte = bytes[k];
        let mut j: u8 = 0;
        while j < 8
            invariant
                k < bytes@.len(),
                j <= 8,
                zero == 0,
                one == 1,
                byte == bytes@[k as int],
                all == bytes::bits_of_bytes(bytes@),
                r@.len() == 8 * k + j,
                forall|i: int|
                    0 <= i < r@.len() ==> #[trigger] r@[i] == (if all[i] {
                        1usize
                    } else {
                        0usize
                    }),
            decreases 8 - j,
        {
            assert((8 * k + j) / 8 == k);
            assert((8 * k + j) % 8 == j);
            if (byte >> j) & 1 == 1 {
                r.push(one);
            } else {
                r.push(zero);
            }
            j = j + 1;
        }
        k = k + 1;
    }
    proof {
        b.lemma_inv();
        assert forall|env: Env| #[trigger] netlist::bits(b@, env, r@) == all by {
            netlist::lemma_constants(b@, env);
            assert(netlist::bits(b@, env, r@) =~= all);
        }
    }
    r
}

// ---------------------------------------------------------------------------
// Field arithmetic on wires.
// ---------------------------------------------------------------------------

/// The wires of a constant element.
pub(crate) fn constant<T: CircuitTrait>(b: &mut T, x: F) -> (r: Elem)
    requires
        old(b).inv(),
    ensures
        final(b).inv(),
        final(b)@ == old(b)@,
        elem_ok(r@, final(b)@.next),
        forall|env: Env| #[trigger] netlist::bits(final(b)@, env, r@) == x@,
{
    tower::constant(b, x.to_repr(), 128)
}

pub(crate) fn one_elem<T: CircuitTrait>(b: &mut T) -> (r: Elem)
    requires
        old(b).inv(),
    ensures
        final(b).inv(),
        final(b)@ == old(b)@,
        elem_ok(r@, final(b)@.next),
        forall|env: Env| #[trigger] netlist::bits(final(b)@, env, r@) == field::one128(),
{
    constant(b, F::one())
}

pub(crate) fn zero_elem<T: CircuitTrait>(b: &mut T) -> (r: Elem)
    requires
        old(b).inv(),
    ensures
        final(b).inv(),
        final(b)@ == old(b)@,
        elem_ok(r@, final(b)@.next),
        forall|env: Env| #[trigger] netlist::bits(final(b)@, env, r@) == field::zero128(),
{
    constant(b, F::zero())
}

/// The product of two elements.
pub(crate) fn mul<T: CircuitTrait>(b: &mut T, x: &Elem, y: &Elem) -> (r: Elem)
    requires
        old(b).inv(),
        elem_ok(x@, old(b)@.next),
        elem_ok(y@, old(b)@.next),
    ensures
        final(b).inv(),
        netlist::ext(old(b)@, final(b)@),
        elem_ok(r@, final(b)@.next),
        forall|env: Env| #[trigger]
            netlist::bits(final(b)@, env, r@) == field::times(
                netlist::bits(old(b)@, env, x@),
                netlist::bits(old(b)@, env, y@),
            ),
{
    proof {
        field::lemma_level_128();
    }
    crate::whir_gc::tower::mul(b, x.as_slice(), y.as_slice())
}

/// The sum of two elements.
pub(crate) fn add<T: CircuitTrait>(b: &mut T, x: &Elem, y: &Elem) -> (r: Elem)
    requires
        old(b).inv(),
        elem_ok(x@, old(b)@.next),
        elem_ok(y@, old(b)@.next),
    ensures
        final(b).inv(),
        netlist::ext(old(b)@, final(b)@),
        elem_ok(r@, final(b)@.next),
        forall|env: Env| #[trigger]
            netlist::bits(final(b)@, env, r@) == field::plus(
                netlist::bits(old(b)@, env, x@),
                netlist::bits(old(b)@, env, y@),
            ),
{
    crate::whir_gc::tower::add(b, x.as_slice(), y.as_slice())
}

/// The square of an element.
pub(crate) fn square<T: CircuitTrait>(b: &mut T, x: &Elem) -> (r: Elem)
    requires
        old(b).inv(),
        elem_ok(x@, old(b)@.next),
    ensures
        final(b).inv(),
        netlist::ext(old(b)@, final(b)@),
        elem_ok(r@, final(b)@.next),
        forall|env: Env| #[trigger]
            netlist::bits(final(b)@, env, r@) == field::times(
                netlist::bits(old(b)@, env, x@),
                netlist::bits(old(b)@, env, x@),
            ),
{
    proof {
        field::lemma_level_128();
    }
    tower::square(b, x.as_slice())
}

pub(crate) fn copy_elem(x: &Elem) -> (r: Elem)
    ensures
        r@ == x@,
{
    tower::copied(x.as_slice())
}

/// Two lists of wire vectors that name the same wires.
pub open spec fn same_wires(a: Seq<Vec<usize>>, b: Seq<Vec<usize>>) -> bool {
    a.len() == b.len() && forall|i: int| 0 <= i < a.len() ==> (#[trigger] a[i])@ == b[i]@
}

pub broadcast proof fn lemma_same_wires(
    a: Seq<Vec<usize>>,
    b: Seq<Vec<usize>>,
    c: Netlist,
    env: Env,
)
    requires
        #[trigger] same_wires(a, b),
    ensures
        #[trigger] netlist::words(c, env, a) == netlist::words(c, env, b),
{
    assert(netlist::words(c, env, a) =~= netlist::words(c, env, b));
}

pub(crate) fn copy_elems(xs: &[Elem]) -> (r: Vec<Elem>)
    ensures
        same_wires(r@, xs@),
        forall|len: nat, n: nat|
            netlist::all_below(xs@, len, n) ==> #[trigger] netlist::all_below(r@, len, n),
        forall|c: Netlist, env: Env| #[trigger]
            netlist::words(c, env, r@) == netlist::words(c, env, xs@),
{
    let mut r: Vec<Elem> = Vec::new();
    while r.len() < xs.len()
        invariant
            r@.len() <= xs@.len(),
            forall|i: int| 0 <= i < r@.len() ==> (#[trigger] r@[i])@ == xs@[i]@,
        decreases xs@.len() - r@.len(),
    {
        let k = r.len();
        r.push(copy_elem(&xs[k]));
    }
    proof {
        assert forall|len: nat, n: nat| netlist::all_below(xs@, len, n) implies
            #[trigger] netlist::all_below(r@, len, n) by {
            assert forall|i: int| 0 <= i < r@.len() implies (#[trigger] r@[i])@.len() == len
                && netlist::below(r@[i]@, n) by {
                assert(xs@[i]@.len() == len);
            }
        }
        assert forall|c: Netlist, env: Env| #[trigger]
            netlist::words(c, env, r@) == netlist::words(c, env, xs@) by {
            lemma_same_wires(r@, xs@, c, env);
        }
    }
    r
}

/// The elements, last first.
pub(crate) fn reversed(xs: &[Elem]) -> (r: Vec<Elem>)
    ensures
        r@.len() == xs@.len(),
        forall|n: nat| elems_ok(xs@, n) ==> #[trigger] elems_ok(r@, n),
        forall|c: Netlist, env: Env| #[trigger]
            netlist::words(c, env, r@) == protocol::reversed(netlist::words(c, env, xs@)),
{
    let n = xs.len();
    let mut r: Vec<Elem> = Vec::new();
    while r.len() < n
        invariant
            n == xs@.len(),
            r@.len() <= n,
            forall|i: int| 0 <= i < r@.len() ==> (#[trigger] r@[i])@ == xs@[n - 1 - i]@,
        decreases n - r@.len(),
    {
        let k = n - 1 - r.len();
        r.push(copy_elem(&xs[k]));
    }
    proof {
        assert forall|m: nat| elems_ok(xs@, m) implies #[trigger] elems_ok(r@, m) by {
            assert forall|i: int| 0 <= i < r@.len() implies (#[trigger] r@[i])@.len() == 128
                && netlist::below(r@[i]@, m) by {
                assert(xs@[n - 1 - i]@.len() == 128);
            }
        }
        assert forall|c: Netlist, env: Env| #[trigger]
            netlist::words(c, env, r@) == protocol::reversed(netlist::words(c, env, xs@)) by {
            assert(netlist::words(c, env, r@) =~= protocol::reversed(
                netlist::words(c, env, xs@),
            ));
        }
    }
    r
}

/// Appending a list of elements.
pub(crate) fn extend(r: &mut Vec<Elem>, xs: &[Elem])
    ensures
        final(r)@.len() == old(r)@.len() + xs@.len(),
        forall|n: nat|
            elems_ok(old(r)@, n) && elems_ok(xs@, n) ==> #[trigger] elems_ok(final(r)@, n),
        forall|c: Netlist, env: Env| #[trigger]
            netlist::words(c, env, final(r)@) == netlist::words(c, env, old(r)@)
                + netlist::words(c, env, xs@),
{
    let ghost first = r@;
    let mut k: usize = 0;
    while k < xs.len()
        invariant
            k <= xs@.len(),
            r@.len() == first.len() + k,
            forall|i: int| 0 <= i < first.len() ==> r@[i] == first[i],
            forall|i: int|
                first.len() <= i < r@.len() ==> (#[trigger] r@[i])@ == xs@[i - first.len()]@,
        decreases xs@.len() - k,
    {
        r.push(copy_elem(&xs[k]));
        k = k + 1;
    }
    proof {
        assert forall|n: nat| elems_ok(first, n) && elems_ok(xs@, n) implies #[trigger] elems_ok(
            r@,
            n,
        ) by {
            assert forall|i: int| 0 <= i < r@.len() implies (#[trigger] r@[i])@.len() == 128
                && netlist::below(r@[i]@, n) by {
                if i < first.len() {
                    assert(r@[i] == first[i]);
                } else {
                    assert(xs@[i - first.len()]@.len() == 128);
                }
            }
        }
        assert forall|c: Netlist, env: Env| #[trigger]
            netlist::words(c, env, r@) == netlist::words(c, env, first) + netlist::words(
                c,
                env,
                xs@,
            ) by {
            assert(netlist::words(c, env, r@) =~= netlist::words(c, env, first) + netlist::words(
                c,
                env,
                xs@,
            ));
        }
    }
}

} // verus!

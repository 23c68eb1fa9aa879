//! Bits, bytes and numbers, least significant first.
use super::field;
use super::field::F;
use vstd::arithmetic::power2::pow2;
use vstd::prelude::*;

verus! {

/// Bit `i` of a byte.
pub open spec fn byte_bit(b: u8, i: int) -> bool {
    (b >> (i as u8)) & 1u8 == 1u8
}

/// The bits of a byte string.
pub open spec fn bits_of_bytes(bytes: Seq<u8>) -> Seq<bool> {
    Seq::new(8 * bytes.len(), |i: int| byte_bit(bytes[i / 8], i % 8))
}

pub open spec fn place(b: bool, v: u8) -> u8 {
    if b {
        v
    } else {
        0u8
    }
}

/// The byte with the bits `s[0..8]`.
pub open spec fn byte_of(s: Seq<bool>) -> u8 {
    place(s[0], 1) | place(s[1], 2) | place(s[2], 4) | place(s[3], 8) | place(s[4], 16) | place(
        s[5],
        32,
    ) | place(s[6], 64) | place(s[7], 128)
}

/// The bytes whose bits are `s`.
pub open spec fn bytes_of_bits(s: Seq<bool>) -> Seq<u8> {
    Seq::new(s.len() / 8, |i: int| byte_of(s.subrange(8 * i, 8 * i + 8)))
}

/// The number whose bits are `s`.
pub open spec fn nat_of(s: Seq<bool>) -> nat
    decreases s.len(),
{
    if s.len() == 0 {
        0
    } else {
        nat_of(s.drop_last()) + if s.last() {
            pow2((s.len() - 1) as nat)
        } else {
            0
        }
    }
}

proof fn lemma_byte_of_bits(
    b0: u8,
    b1: u8,
    b2: u8,
    b3: u8,
    b4: u8,
    b5: u8,
    b6: u8,
    b7: u8,
    r: u8,
)
    by (bit_vector)
    requires
        b0 == 0 || b0 == 1,
        b1 == 0 || b1 == 2,
        b2 == 0 || b2 == 4,
        b3 == 0 || b3 == 8,
        b4 == 0 || b4 == 16,
        b5 == 0 || b5 == 32,
        b6 == 0 || b6 == 64,
        b7 == 0 || b7 == 128,
        r == b0 | b1 | b2 | b3 | b4 | b5 | b6 | b7,
    ensures
        ((r >> 0u8) & 1 == 1) == (b0 == 1),
        ((r >> 1u8) & 1 == 1) == (b1 == 2),
        ((r >> 2u8) & 1 == 1) == (b2 == 4),
        ((r >> 3u8) & 1 == 1) == (b3 == 8),
        ((r >> 4u8) & 1 == 1) == (b4 == 16),
        ((r >> 5u8) & 1 == 1) == (b5 == 32),
        ((r >> 6u8) & 1 == 1) == (b6 == 64),
        ((r >> 7u8) & 1 == 1) == (b7 == 128),
{
}

/// The byte of eight bits has those bits.
pub proof fn lemma_byte_of(s: Seq<bool>, i: int)
    requires
        0 <= i < 8,
    ensures
        byte_bit(byte_of(s), i) == s[i],
{
    lemma_byte_of_bits(
        place(s[0], 1),
        place(s[1], 2),
        place(s[2], 4),
        place(s[3], 8),
        place(s[4], 16),
        place(s[5], 32),
        place(s[6], 64),
        place(s[7], 128),
        byte_of(s),
    );
}

proof fn lemma_byte_eq_bits(a: u8, b: u8)
    by (bit_vector)
    requires
        ((a >> 0u8) & 1 == 1) == ((b >> 0u8) & 1 == 1),
        ((a >> 1u8) & 1 == 1) == ((b >> 1u8) & 1 == 1),
        ((a >> 2u8) & 1 == 1) == ((b >> 2u8) & 1 == 1),
        ((a >> 3u8) & 1 == 1) == ((b >> 3u8) & 1 == 1),
        ((a >> 4u8) & 1 == 1) == ((b >> 4u8) & 1 == 1),
        ((a >> 5u8) & 1 == 1) == ((b >> 5u8) & 1 == 1),
        ((a >> 6u8) & 1 == 1) == ((b >> 6u8) & 1 == 1),
        ((a >> 7u8) & 1 == 1) == ((b >> 7u8) & 1 == 1),
    ensures
        a == b,
{
}

/// A byte is determined by its bits.
pub proof fn lemma_byte_eq(a: u8, b: u8)
    requires
        forall|i: int| 0 <= i < 8 ==> #[trigger] byte_bit(a, i) == byte_bit(b, i),
    ensures
        a == b,
{
    assert(byte_bit(a, 0) == byte_bit(b, 0));
    assert(byte_bit(a, 1) == byte_bit(b, 1));
    assert(byte_bit(a, 2) == byte_bit(b, 2));
    assert(byte_bit(a, 3) == byte_bit(b, 3));
    assert(byte_bit(a, 4) == byte_bit(b, 4));
    assert(byte_bit(a, 5) == byte_bit(b, 5));
    assert(byte_bit(a, 6) == byte_bit(b, 6));
    assert(byte_bit(a, 7) == byte_bit(b, 7));
    lemma_byte_eq_bits(a, b);
}

/// The bits of the bytes of some bits are those bits.
pub proof fn lemma_bits_of_bytes_of_bits(s: Seq<bool>)
    requires
        s.len() % 8 == 0,
    ensures
        bits_of_bytes(bytes_of_bits(s)) == s,
{
    let b = bytes_of_bits(s);
    assert forall|i: int| 0 <= i < s.len() implies bits_of_bytes(b)[i] == s[i] by {
        let k = i / 8;
        lemma_byte_of(s.subrange(8 * k, 8 * k + 8), i % 8);
        assert(b[k] == byte_of(s.subrange(8 * k, 8 * k + 8)));
        assert(8 * k + i % 8 == i);
    }
    assert(bits_of_bytes(b) =~= s);
}

/// The bytes of the bits of some bytes are those bytes.
pub proof fn lemma_bytes_of_bits_of_bytes(b: Seq<u8>)
    ensures
        bytes_of_bits(bits_of_bytes(b)) == b,
{
    let s = bits_of_bytes(b);
    let c = bytes_of_bits(s);
    assert forall|k: int| 0 <= k < b.len() implies c[k] == b[k] by {
        let t = s.subrange(8 * k, 8 * k + 8);
        assert forall|i: int| 0 <= i < 8 implies #[trigger] byte_bit(byte_of(t), i) == byte_bit(
            b[k],
            i,
        ) by {
            lemma_byte_of(t, i);
            assert(t[i] == s[8 * k + i]);
            assert((8 * k + i) / 8 == k);
            assert((8 * k + i) % 8 == i);
        }
        lemma_byte_eq(byte_of(t), b[k]);
    }
    assert(c =~= b);
}

pub proof fn lemma_bits_concat(a: Seq<u8>, b: Seq<u8>)
    ensures
        bits_of_bytes(a + b) == bits_of_bytes(a) + bits_of_bytes(b),
{
    assert forall|i: int| 0 <= i < 8 * (a.len() + b.len()) implies bits_of_bytes(a + b)[i] == (
    bits_of_bytes(a) + bits_of_bytes(b))[i] by {
        if i >= 8 * a.len() {
            assert(i / 8 - a.len() == (i - 8 * a.len()) / 8);
            assert(i % 8 == (i - 8 * a.len()) % 8);
        }
    }
    assert(bits_of_bytes(a + b) =~= bits_of_bytes(a) + bits_of_bytes(b));
}

pub proof fn lemma_bytes_concat(a: Seq<bool>, b: Seq<bool>)
    requires
        a.len() % 8 == 0,
        b.len() % 8 == 0,
    ensures
        bytes_of_bits(a + b) == bytes_of_bits(a) + bytes_of_bits(b),
{
    let x = bytes_of_bits(a) + bytes_of_bits(b);
    lemma_bits_concat(bytes_of_bits(a), bytes_of_bits(b));
    lemma_bits_of_bytes_of_bits(a);
    lemma_bits_of_bytes_of_bits(b);
    lemma_bytes_of_bits_of_bytes(x);
}

pub proof fn lemma_nat_of_bound(s: Seq<bool>)
    ensures
        nat_of(s) < pow2(s.len()),
    decreases s.len(),
{
    if s.len() == 0 {
        vstd::arithmetic::power2::lemma2_to64();
    } else {
        lemma_nat_of_bound(s.drop_last());
        vstd::arithmetic::power2::lemma_pow2_unfold(s.len());
    }
}

/// Splitting off the low bit.
pub proof fn lemma_nat_of_first(s: Seq<bool>)
    requires
        s.len() > 0,
    ensures
        nat_of(s) == 2 * nat_of(s.skip(1)) + if s[0] {
            1nat
        } else {
            0nat
        },
    decreases s.len(),
{
    vstd::arithmetic::power2::lemma2_to64();
    if s.len() == 1 {
        assert(s.drop_last() =~= Seq::<bool>::empty());
        assert(s.skip(1) =~= Seq::<bool>::empty());
    } else {
        let t = s.drop_last();
        lemma_nat_of_first(t);
        assert(t.skip(1) =~= s.skip(1).drop_last());
        vstd::arithmetic::power2::lemma_pow2_unfold((s.len() - 1) as nat);
    }
}

/// The low bits, then the high bits.
pub proof fn lemma_nat_of_concat(a: Seq<bool>, b: Seq<bool>)
    ensures
        nat_of(a + b) == nat_of(a) + pow2(a.len()) * nat_of(b),
    decreases b.len(),
{
    if b.len() == 0 {
        assert(a + b =~= a);
        assert(pow2(a.len()) * 0 == 0) by (nonlinear_arith);
    } else {
        let c = b.drop_last();
        lemma_nat_of_concat(a, c);
        assert((a + b).drop_last() =~= a + c);
        vstd::arithmetic::power2::lemma_pow2_adds(a.len(), c.len());
        let p = pow2(a.len());
        let q = pow2(c.len());
        let m = nat_of(c);
        assert(p * (m + q) == p * m + p * q) by (nonlinear_arith);
        assert(p * (m + 0) == p * m) by (nonlinear_arith);
    }
}

/// All bits zero is the number zero.
pub proof fn lemma_nat_of_zero(s: Seq<bool>)
    ensures
        nat_of(s) == 0 <==> forall|i: int| 0 <= i < s.len() ==> !#[trigger] s[i],
    decreases s.len(),
{
    if s.len() > 0 {
        let t = s.drop_last();
        lemma_nat_of_zero(t);
        vstd::arithmetic::power2::lemma_pow2_pos((s.len() - 1) as nat);
        if nat_of(s) == 0 {
            assert forall|i: int| 0 <= i < s.len() implies !#[trigger] s[i] by {
                if i < t.len() {
                    assert(t[i] == s[i]);
                }
            }
        }
        if forall|i: int| 0 <= i < s.len() ==> !#[trigger] s[i] {
            assert forall|i: int| 0 <= i < t.len() implies !#[trigger] t[i] by {
                assert(s[i] == t[i]);
            }
        }
    }
}

proof fn lemma_shifted_byte(v: u128, k: u128, j: u128, kj: u128)
    by (bit_vector)
    requires
        k <= 120,
        j < 8,
        kj == k + j,
    ensures
        ((((v >> k) & 0xff) as u8) >> (j as u8)) & 1 == 1 <==> (v >> kj) & 1 == 1,
{
}

proof fn lemma_placed_byte(acc: u128, byte: u8, k: u128, i: u128, ik: u128)
    by (bit_vector)
    requires
        k <= 120,
        i < 128,
        acc >> k == 0,
        i >= k ==> ik == i - k,
    ensures
        i < k ==> ((acc | ((byte as u128) << k)) >> i) & 1 == (acc >> i) & 1,
        k <= i && ik < 8 ==> (((acc | ((byte as u128) << k)) >> i) & 1 == 1 <==> (byte >> (
        ik as u8)) & 1 == 1),
        k <= 112 ==> (acc | ((byte as u128) << k)) >> ((k + 8) as u128) == 0,
{
}

/// The sixteen bytes of an element, least significant first.
pub fn elem_bytes(x: F) -> (r: Vec<u8>)
    ensures
        r@ == bytes_of_bits(x@),
        r@.len() == 16,
{
    let v = x.to_repr();
    let mut r: Vec<u8> = Vec::new();
    while r.len() < 16
        invariant
            r@.len() <= 16,
            v == x.repr,
            forall|k: int| 0 <= k < r@.len() ==> #[trigger] r@[k] == bytes_of_bits(x@)[k],
        decreases 16 - r@.len(),
    {
        let k: u128 = (r.len() * 8) as u128;
        let b: u8 = ((v >> k) & 0xff) as u8;
        proof {
            let i = r@.len() as int;
            let t = x@.subrange(8 * i, 8 * i + 8);
            assert forall|j: int| 0 <= j < 8 implies #[trigger] byte_bit(b, j) == byte_bit(
                byte_of(t),
                j,
            ) by {
                lemma_byte_of(t, j);
                lemma_shifted_byte(v, k, j as u128, (k + j) as u128);
                assert(t[j] == x@[8 * i + j]);
            }
            lemma_byte_eq(b, byte_of(t));
        }
        r.push(b);
    }
    assert(r@ =~= bytes_of_bits(x@));
    r
}

/// The element of sixteen bytes, least significant first.
pub fn elem_of_bytes(bytes: &[u8]) -> (x: F)
    requires
        bytes@.len() == 16,
    ensures
        x@ == bits_of_bytes(bytes@),
{
    let mut acc: u128 = 0;
    let mut n: usize = 0;
    proof {
        assert(0u128 >> 0u128 == 0) by (bit_vector);
    }
    while n < 16
        invariant
            n <= 16,
            bytes@.len() == 16,
            n < 16 ==> acc >> ((8 * n) as u128) == 0,
            forall|i: int|
                0 <= i < 8 * n ==> #[trigger] field::bit(acc, i) == bits_of_bytes(bytes@)[i],
        decreases 16 - n,
    {
        let k: u128 = (n * 8) as u128;
        let byte = bytes[n];
        let ghost acc0 = acc;
        acc = acc | ((byte as u128) << k);
        proof {
            lemma_placed_byte(acc0, byte, k, 0, if k == 0 { 0 } else { 9 });
            assert forall|i: int| 0 <= i < 8 * n + 8 implies #[trigger] field::bit(acc, i)
                == bits_of_bytes(bytes@)[i] by {
                if i < 8 * n {
                    lemma_placed_byte(acc0, byte, k, i as u128, 0);
                    assert(field::bit(acc0, i) == bits_of_bytes(bytes@)[i]);
                } else {
                    lemma_placed_byte(acc0, byte, k, i as u128, (i - k) as u128);
                    assert(i / 8 == n);
                    assert(i % 8 == i - k);
                }
            }
        }
        n = n + 1;
    }
    assert(field::bits_of(acc, 128) =~= bits_of_bytes(bytes@));
    F::from_repr(acc)
}

/// The number of the low `n` bits of eight bytes.
pub fn low_bits(bytes: &[u8], n: usize) -> (v: usize)
    requires
        bytes@.len() == 8,
        n < usize::BITS,
        n < 64,
    ensures
        v == nat_of(bits_of_bytes(bytes@).take(n as int)),
        v < pow2(n as nat),
{
    let ghost all = bits_of_bytes(bytes@);
    let mut v: usize = 0;
    let mut p: usize = 1;
    let mut i: usize = 0;
    proof {
        vstd::arithmetic::power2::lemma2_to64();
        vstd::layout::unsigned_int_max_values();
        assert(all.take(0) =~= Seq::<bool>::empty());
    }
    while i < n
        invariant
            i <= n,
            n < 64,
            n < usize::BITS,
            bytes@.len() == 8,
            all == bits_of_bytes(bytes@),
            usize::MAX == pow2(usize::BITS as nat) - 1,
            v == nat_of(all.take(i as int)),
            p == pow2(i as nat),
        decreases n - i,
    {
        let byte = bytes[i / 8];
        let j: u8 = (i % 8) as u8;
        proof {
            lemma_nat_of_bound(all.take(i as int));
            lemma_nat_of_bound(all.take(i + 1));
            assert(all.take(i + 1).drop_last() =~= all.take(i as int));
            assert(all.take(i + 1).last() == byte_bit(bytes@[i as int / 8], i as int % 8));
            vstd::arithmetic::power2::lemma_pow2_unfold((i + 1) as nat);
            vstd::arithmetic::power2::lemma_pow2_strictly_increases(
                (i + 1) as nat,
                usize::BITS as nat,
            );
        }
        if (byte >> j) & 1 == 1 {
            v = v + p;
        }
        p = p * 2;
        i = i + 1;
    }
    proof {
        lemma_nat_of_bound(all.take(n as int));
    }
    v
}

} // verus!

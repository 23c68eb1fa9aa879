//! Blake3 as gates, in the unkeyed hash mode, with a 32-byte output.
//!
//! Wires carry bits, least significant first within a byte, bytes in order.
//! The input is split into chunks of 1024 bytes, a chunk into blocks of 64,
//! and the chunks' chaining values are joined in a binary tree whose left
//! subtrees are complete. XORs are free and rotations are rewirings, so the
//! non-free gates are those of the additions.
use super::bytes;
use super::field;
use super::gates::CircuitTrait;
use super::netlist;
use super::netlist::{Env, Netlist};
use super::protocol;
use super::tower;
use vstd::arithmetic::power2::pow2;
use vstd::prelude::*;

verus! {

broadcast use netlist::group_netlist;

// ---------------------------------------------------------------------------
// The hash on bits.
// ---------------------------------------------------------------------------

/// A 32-bit word, bit 0 first.
pub type Word = Seq<bool>;

/// The word of a number.
pub open spec fn word(v: u32) -> Word {
    field::bits_of(v as u128, 32)
}

/// Addition modulo `2^32`.
pub open spec fn add_words(x: Word, y: Word) -> Word {
    sum_bits(x, y, 32)
}

/// The low `n` bits of `x + y`, by carries.
pub open spec fn sum_bits(x: Seq<bool>, y: Seq<bool>, n: nat) -> Seq<bool> {
    Seq::new(n, |i: int| (x[i] != y[i]) != carry(x, y, i as nat))
}

/// The carry into bit `i` of `x + y`.
pub open spec fn carry(x: Seq<bool>, y: Seq<bool>, i: nat) -> bool
    decreases i,
{
    if i == 0 {
        false
    } else {
        let c = carry(x, y, (i - 1) as nat);
        let a = x[i - 1];
        let b = y[i - 1];
        (a && b) || (c && (a != b))
    }
}

/// The carries add up: the low `n` bits are the sum modulo `2^n`.
pub proof fn law_sum_bits(x: Seq<bool>, y: Seq<bool>, n: nat)
    requires
        n <= x.len(),
        n <= y.len(),
    ensures
        bytes::nat_of(sum_bits(x, y, n)) + (if carry(x, y, n) {
            pow2(n)
        } else {
            0
        }) == bytes::nat_of(x.take(n as int)) + bytes::nat_of(y.take(n as int)),
    decreases n,
{
    if n == 0 {
        assert(sum_bits(x, y, n) =~= Seq::<bool>::empty());
        assert(x.take(0) =~= Seq::<bool>::empty());
        assert(y.take(0) =~= Seq::<bool>::empty());
    } else {
        let k = (n - 1) as nat;
        law_sum_bits(x, y, k);
        assert(sum_bits(x, y, n).drop_last() =~= sum_bits(x, y, k));
        assert(x.take(n as int).drop_last() =~= x.take(k as int));
        assert(y.take(n as int).drop_last() =~= y.take(k as int));
        vstd::arithmetic::power2::lemma_pow2_unfold(n);
    }
}

/// Rotation to the right by `n`.
pub open spec fn rotated(x: Word, n: int) -> Word {
    Seq::new(32, |i: int| x[(i + n) % 32])
}

/// Half a quarter-round, with its two rotations.
pub open spec fn half_mixed(
    q: (Word, Word, Word, Word),
    m: Word,
    r1: int,
    r2: int,
) -> (Word, Word, Word, Word) {
    let (a, b, c, d) = q;
    let a1 = add_words(add_words(a, b), m);
    let d1 = rotated(field::plus(d, a1), r1);
    let c1 = add_words(c, d1);
    let b1 = rotated(field::plus(b, c1), r2);
    (a1, b1, c1, d1)
}

/// The quarter-round.
pub open spec fn mixed(a: Word, b: Word, c: Word, d: Word, mx: Word, my: Word) -> (
    Word,
    Word,
    Word,
    Word,
) {
    half_mixed(half_mixed((a, b, c, d), mx, 16, 12), my, 8, 7)
}

/// The quarter-round on four words of the state.
pub open spec fn mix_at(
    s: Seq<Word>,
    ia: int,
    ib: int,
    ic: int,
    id: int,
    mx: Word,
    my: Word,
) -> Seq<Word> {
    let (a, b, c, d) = mixed(s[ia], s[ib], s[ic], s[id], mx, my);
    s.update(ia, a).update(ib, b).update(ic, c).update(id, d)
}

/// One round: the columns, then the diagonals.
pub open spec fn round(s: Seq<Word>, m: Seq<Word>) -> Seq<Word> {
    let s = mix_at(s, 0, 4, 8, 12, m[0], m[1]);
    let s = mix_at(s, 1, 5, 9, 13, m[2], m[3]);
    let s = mix_at(s, 2, 6, 10, 14, m[4], m[5]);
    let s = mix_at(s, 3, 7, 11, 15, m[6], m[7]);
    let s = mix_at(s, 0, 5, 10, 15, m[8], m[9]);
    let s = mix_at(s, 1, 6, 11, 12, m[10], m[11]);
    let s = mix_at(s, 2, 7, 8, 13, m[12], m[13]);
    mix_at(s, 3, 4, 9, 14, m[14], m[15])
}

/// Where each message word of the next round comes from.
pub open spec fn schedule() -> Seq<int> {
    seq![2, 6, 3, 10, 7, 0, 4, 13, 1, 11, 12, 5, 9, 14, 15, 8]
}

/// The message words of the next round.
pub open spec fn permuted(m: Seq<Word>) -> Seq<Word> {
    Seq::new(16, |i: int| m[schedule()[i]])
}

/// The message words of round `n`.
pub open spec fn message_of(m: Seq<Word>, n: nat) -> Seq<Word>
    decreases n,
{
    if n == 0 {
        m
    } else {
        permuted(message_of(m, (n - 1) as nat))
    }
}

/// The state after `n` rounds.
pub open spec fn rounds(s: Seq<Word>, m: Seq<Word>, n: nat) -> Seq<Word>
    decreases n,
{
    if n == 0 {
        s
    } else {
        round(rounds(s, m, (n - 1) as nat), message_of(m, (n - 1) as nat))
    }
}

/// The initial chaining value.
pub open spec fn iv() -> Seq<Word> {
    seq![
        word(0x6A09E667),
        word(0xBB67AE85),
        word(0x3C6EF372),
        word(0xA54FF53A),
        word(0x510E527F),
        word(0x9B05688C),
        word(0x1F83D9AB),
        word(0x5BE0CD19),
    ]
}

/// The state that a compression starts from.
pub open spec fn initial_state(cv: Seq<Word>, counter: u64, len: u32, flags: u32) -> Seq<Word> {
    cv + iv().take(4) + seq![
        word((counter % 0x1_0000_0000) as u32),
        word((counter / 0x1_0000_0000) as u32),
        word(len),
        word(flags),
    ]
}

/// The chaining value after one block.
pub open spec fn compress(
    cv: Seq<Word>,
    m: Seq<Word>,
    counter: u64,
    len: u32,
    flags: u32,
) -> Seq<Word> {
    let s = rounds(initial_state(cv, counter, len, flags), m, 7);
    Seq::new(8, |i: int| field::plus(s[i], s[i + 8]))
}

/// The words of 512 bits.
pub open spec fn block_words(block: Seq<bool>) -> Seq<Word> {
    Seq::new(16, |i: int| block.subrange(32 * i, 32 * i + 32))
}

/// The number of blocks of a chunk of `len` bytes: at least one.
pub open spec fn block_count(len: nat) -> nat {
    if len == 0 {
        1
    } else {
        (len + 63) / 64
    }
}

/// The bytes of block `k` of a chunk of `len` bytes.
pub open spec fn block_len(len: nat, k: nat) -> nat {
    if len >= 64 * (k + 1) {
        64
    } else {
        (len - 64 * k) as nat
    }
}

/// Block `k` of a chunk, zero-padded.
pub open spec fn block(chunk: Seq<bool>, k: nat) -> Seq<bool> {
    Seq::new(512, |i: int| 512 * k + i < chunk.len() && chunk[512 * k + i])
}

/// The flags of block `k`: chunk start, chunk end, root.
pub open spec fn block_flags(len: nat, k: nat, root: bool) -> u32 {
    let start: int = if k == 0 {
        1
    } else {
        0
    };
    let end: int = if k + 1 == block_count(len) {
        if root {
            10
        } else {
            2
        }
    } else {
        0
    };
    (start + end) as u32
}

/// The chaining value after `k` blocks of a chunk.
pub open spec fn chunk_cv(chunk: Seq<bool>, counter: u64, root: bool, k: nat) -> Seq<Word>
    decreases k,
{
    if k == 0 {
        iv()
    } else {
        let j = (k - 1) as nat;
        let len = chunk.len() / 8;
        compress(
            chunk_cv(chunk, counter, root, j),
            block_words(block(chunk, j)),
            counter,
            block_len(len, j) as u32,
            block_flags(len, j, root),
        )
    }
}

/// The chunks of the left subtree over `len > 1024` bytes: the greatest power
/// of two that leaves something to the right.
pub open spec fn left_chunks(len: nat) -> nat {
    pow2(protocol::log2(((len - 1) / 1024) as nat))
}

/// The chaining value of the subtree over `msg`, whose first chunk has the
/// index `first`.
pub open spec fn subtree(msg: Seq<bool>, first: nat, root: bool) -> Seq<Word>
    decreases msg.len(),
{
    let len = msg.len() / 8;
    let at = (8192 * left_chunks(len)) as int;
    if 1024 < len && 0 < at < msg.len() {
        let left = subtree(msg.take(at), first, false);
        let right = subtree(msg.skip(at), first + left_chunks(len), false);
        compress(
            iv(),
            left + right,
            0,
            64,
            if root {
                12
            } else {
                4
            },
        )
    } else {
        chunk_cv(msg, first as u64, root, block_count(len))
    }
}

/// The bits of some words.
pub open spec fn flat(ws: Seq<Word>) -> Seq<bool>
    decreases ws.len(),
{
    if ws.len() == 0 {
        Seq::empty()
    } else {
        flat(ws.drop_last()) + ws.last()
    }
}

/// The gates other than XORs of `n` compressions at most: each has seven rounds of eight
/// quarter-rounds of six additions, with a carry out of every bit but the last.
/// Constants in the state save some of them.
pub open spec fn compression_ands(n: nat) -> int {
    10416 * (n as int)
}

/// The compressions of a message of `n` bits.
pub open spec fn compressions(n: nat) -> nat
    decreases n,
{
    let len = n / 8;
    let at = (8192 * left_chunks(len)) as int;
    if 1024 < len && 0 < at < n {
        compressions(at as nat) + compressions((n - at) as nat) + 1
    } else {
        block_count(len)
    }
}

/// The digest's bits.
pub open spec fn hash_bits(msg: Seq<bool>) -> Seq<bool> {
    flat(subtree(msg, 0, true))
}

/// The digest's bytes.
pub open spec fn hash_bytes(msg: Seq<u8>) -> Seq<u8> {
    bytes::bytes_of_bits(hash_bits(bytes::bits_of_bytes(msg)))
}

/// The left subtree is a proper part of the message.
pub proof fn lemma_left_chunks(len: nat)
    requires
        len > 1024,
    ensures
        left_chunks(len) >= 1,
        1024 * left_chunks(len) < len,
{
    let n = ((len - 1) / 1024) as nat;
    protocol::lemma_log2(n);
    vstd::arithmetic::power2::lemma_pow2_pos(protocol::log2(n));
    assert(1024 * n <= len - 1);
}

/// A subtree over more than one chunk joins its two halves.
proof fn lemma_subtree_join(msg: Seq<bool>, first: nat, root: bool)
    requires
        msg.len() % 8 == 0,
        msg.len() / 8 > 1024,
    ensures
        ({
            let at = (8192 * left_chunks(msg.len() / 8)) as int;
            subtree(msg, first, root) == compress(
                iv(),
                subtree(msg.take(at), first, false) + subtree(
                    msg.skip(at),
                    first + left_chunks(msg.len() / 8),
                    false,
                ),
                0,
                64,
                if root {
                    12
                } else {
                    4
                },
            )
        }),
{
    lemma_left_chunks(msg.len() / 8);
}

// ---------------------------------------------------------------------------
// The gadget.
// ---------------------------------------------------------------------------

/// `x + y` modulo `2^32`: a ripple of one-AND full adders.
fn add32<T: CircuitTrait>(b: &mut T, x: &[usize], y: &[usize]) -> (r: Vec<usize>)
    requires
        old(b).inv(),
        x@.len() == 32,
        y@.len() == 32,
        netlist::below(x@, old(b)@.next),
        netlist::below(y@, old(b)@.next),
    ensures
        final(b).inv(),
        netlist::ext(old(b)@, final(b)@),
        r@.len() == 32,
        netlist::below(r@, final(b)@.next),
        forall|env: Env| #[trigger]
            netlist::bits(final(b)@, env, r@) == add_words(
                netlist::bits(old(b)@, env, x@),
                netlist::bits(old(b)@, env, y@),
            ),
        netlist::within(old(b)@, final(b)@, 31),
{
    let ghost first = b@;
    let mut r: Vec<usize> = Vec::with_capacity(32);
    let mut c = b.zero();
    proof {
        netlist::lemma_ext_refl(first);
        b.lemma_inv();
        assert forall|env: Env| #[trigger] netlist::value(b@, env, c as int) == false by {
            netlist::lemma_constants(b@, env);
        }
    }
    while r.len() < 32
        invariant
            b.inv(),
            x@.len() == 32,
            y@.len() == 32,
            r@.len() <= 32,
            netlist::below(x@, first.next),
            netlist::below(y@, first.next),
            netlist::ext(first, b@),
            netlist::below(r@, b@.next),
            c < b@.next,
            netlist::within(first, b@, r@.len() as int),
            r@.len() == 32 ==> netlist::within(first, b@, 31),
            forall|env: Env|
                r@.len() < 32 ==> #[trigger] netlist::value(b@, env, c as int) == carry(
                    netlist::bits(first, env, x@),
                    netlist::bits(first, env, y@),
                    r@.len(),
                ),
            forall|env: Env, i: int|
                0 <= i < r@.len() ==> #[trigger] netlist::value(b@, env, r@[i] as int)
                    == add_words(
                    netlist::bits(first, env, x@),
                    netlist::bits(first, env, y@),
                )[i],
        decreases 32 - r@.len(),
    {
        let k = r.len();
        let ghost c0 = b@;
        let ghost r0 = r@;
        let ghost cin = c;
        let xc = b.xor_wire(x[k], c);
        let ghost c1 = b@;
        let yc = b.xor_wire(y[k], c);
        let ghost c2 = b@;
        let s = b.xor_wire(xc, y[k]);
        let ghost c3 = b@;
        let ghost mut c4 = b@;
        // The carry out of the top bit is dropped.
        proof {
            netlist::lemma_emit_cost(c0, x@[k as int], cin);
            netlist::lemma_emit_cost(c1, y@[k as int], cin);
            netlist::lemma_emit_cost(c2, xc, y@[k as int]);
            netlist::lemma_emit_cost(c3, xc, yc);
        }
        if k < 31 {
            let t = b.and_wire(xc, yc);
            proof {
                c4 = b@;
                netlist::lemma_emit_cost(c4, t, cin);
            }
            c = b.xor_wire(t, c);
        }
        r.push(s);
        proof {
            assert forall|env: Env| r@.len() < 32 implies #[trigger] netlist::value(
                b@,
                env,
                c as int,
            ) == carry(
                netlist::bits(first, env, x@),
                netlist::bits(first, env, y@),
                r@.len(),
            ) by {
                let p = netlist::bits(first, env, x@);
                let q = netlist::bits(first, env, y@);
                assert(netlist::value(c0, env, x@[k as int] as int) == p[k as int]);
                assert(netlist::value(c0, env, y@[k as int] as int) == q[k as int]);
                assert(netlist::value(c1, env, y@[k as int] as int) == q[k as int]);
                assert(netlist::value(c1, env, cin as int) == carry(p, q, k as nat));
                assert(netlist::value(c1, env, xc as int) == (p[k as int] != carry(
                    p,
                    q,
                    k as nat,
                )));
                assert(netlist::value(c3, env, xc as int) == netlist::value(c1, env, xc as int));
                assert(netlist::value(c3, env, yc as int) == netlist::value(c2, env, yc as int));
                assert(netlist::value(c4, env, cin as int) == carry(p, q, k as nat));
            }
            assert forall|env: Env, i: int| 0 <= i < r@.len() implies #[trigger] netlist::value(
                b@,
                env,
                r@[i] as int,
            ) == add_words(
                netlist::bits(first, env, x@),
                netlist::bits(first, env, y@),
            )[i] by {
                let p = netlist::bits(first, env, x@);
                let q = netlist::bits(first, env, y@);
                if i < k {
                    assert(r@[i] == r0[i]);
                    assert(netlist::value(c0, env, r0[i] as int) == add_words(p, q)[i]);
                } else {
                    assert(netlist::value(c0, env, x@[k as int] as int) == p[k as int]);
                    assert(netlist::value(c2, env, y@[k as int] as int) == q[k as int]);
                    assert(netlist::value(c0, env, cin as int) == carry(p, q, k as nat));
                    assert(netlist::value(c2, env, xc as int) == netlist::value(
                        c1,
                        env,
                        xc as int,
                    ));
                    assert(netlist::value(b@, env, s as int) == netlist::value(c3, env, s as int));
                }
            }
        }
    }
    proof {
        assert forall|env: Env| #[trigger]
            netlist::bits(b@, env, r@) == add_words(
                netlist::bits(first, env, x@),
                netlist::bits(first, env, y@),
            ) by {
            let want = add_words(netlist::bits(first, env, x@), netlist::bits(first, env, y@));
            assert forall|i: int| 0 <= i < 32 implies netlist::bits(b@, env, r@)[i]
                == want[i] by {
                assert(netlist::value(b@, env, r@[i] as int) == want[i]);
            }
            assert(netlist::bits(b@, env, r@) =~= want);
        }
    }
    r
}

/// Rotation to the right: a rewiring.
fn rotr(x: &Vec<usize>, n: usize) -> (r: Vec<usize>)
    requires
        x@.len() == 32,
        n < 32,
    ensures
        r@.len() == 32,
        forall|m: nat| netlist::below(x@, m) ==> #[trigger] netlist::below(r@, m),
        forall|c: Netlist, env: Env| #[trigger]
            netlist::bits(c, env, r@) == rotated(netlist::bits(c, env, x@), n as int),
{
    let mut r: Vec<usize> = Vec::with_capacity(32);
    while r.len() < 32
        invariant
            x@.len() == 32,
            n < 32,
            r@.len() <= 32,
            forall|i: int| 0 <= i < r@.len() ==> #[trigger] r@[i] == x@[(i + n) % 32],
        decreases 32 - r@.len(),
    {
        let k = r.len();
        r.push(x[(k + n) % 32]);
    }
    proof {
        assert forall|c: Netlist, env: Env| #[trigger]
            netlist::bits(c, env, r@) == rotated(netlist::bits(c, env, x@), n as int) by {
            assert(netlist::bits(c, env, r@) =~= rotated(netlist::bits(c, env, x@), n as int));
        }
    }
    r
}

/// Four words.
struct Quad {
    a: Vec<usize>,
    b: Vec<usize>,
    c: Vec<usize>,
    d: Vec<usize>,
}

spec fn word_wires(w: Seq<usize>, n: nat) -> bool {
    w.len() == 32 && netlist::below(w, n)
}

impl Quad {
    spec fn wf(self, n: nat) -> bool {
        &&& word_wires(self.a@, n)
        &&& word_wires(self.b@, n)
        &&& word_wires(self.c@, n)
        &&& word_wires(self.d@, n)
    }

    spec fn value(self, n: Netlist, env: Env) -> (Word, Word, Word, Word) {
        (
            netlist::bits(n, env, self.a@),
            netlist::bits(n, env, self.b@),
            netlist::bits(n, env, self.c@),
            netlist::bits(n, env, self.d@),
        )
    }
}

/// Half a quarter-round, with its two rotations.
fn half_mix<T: CircuitTrait>(b: &mut T, q: &Quad, m: &[usize], r1: usize, r2: usize) -> (r: Quad)
    requires
        old(b).inv(),
        q.wf(old(b)@.next),
        word_wires(m@, old(b)@.next),
        r1 < 32,
        r2 < 32,
    ensures
        final(b).inv(),
        netlist::ext(old(b)@, final(b)@),
        r.wf(final(b)@.next),
        forall|env: Env| #[trigger]
            r.value(final(b)@, env) == half_mixed(
                q.value(old(b)@, env),
                netlist::bits(old(b)@, env, m@),
                r1 as int,
                r2 as int,
            ),
        netlist::within(old(b)@, final(b)@, 93),
{
    let ghost n0 = b@;
    let ab = add32(b, q.a.as_slice(), q.b.as_slice());
    let ghost n1 = b@;
    let a1 = add32(b, ab.as_slice(), m);
    let ghost n2 = b@;
    let da = tower::add(b, q.d.as_slice(), a1.as_slice());
    let ghost n3 = b@;
    let d1 = rotr(&da, r1);
    assert(netlist::below(d1@, n3.next));
    let c1 = add32(b, q.c.as_slice(), d1.as_slice());
    let ghost n4 = b@;
    let bc = tower::add(b, q.b.as_slice(), c1.as_slice());
    let b1 = rotr(&bc, r2);
    let r = Quad { a: a1, b: b1, c: c1, d: d1 };
    proof {
        assert(netlist::below(b1@, b@.next));
        assert forall|env: Env| #[trigger]
            r.value(b@, env) == half_mixed(
                q.value(n0, env),
                netlist::bits(n0, env, m@),
                r1 as int,
                r2 as int,
            ) by {
            assert(netlist::bits(n1, env, m@) == netlist::bits(n0, env, m@));
            assert(netlist::bits(n2, env, q.d@) == netlist::bits(n0, env, q.d@));
            assert(netlist::bits(n3, env, q.c@) == netlist::bits(n0, env, q.c@));
            assert(netlist::bits(n4, env, q.b@) == netlist::bits(n0, env, q.b@));
            assert(netlist::bits(n1, env, ab@) == add_words(
                netlist::bits(n0, env, q.a@),
                netlist::bits(n0, env, q.b@),
            ));
            assert(netlist::bits(n2, env, a1@) == add_words(
                netlist::bits(n1, env, ab@),
                netlist::bits(n0, env, m@),
            ));
            assert(netlist::bits(n3, env, da@) == field::plus(
                netlist::bits(n0, env, q.d@),
                netlist::bits(n2, env, a1@),
            ));
            assert(netlist::bits(n3, env, d1@) == rotated(netlist::bits(n3, env, da@), r1 as int));
            assert(netlist::bits(n4, env, c1@) == add_words(
                netlist::bits(n0, env, q.c@),
                netlist::bits(n3, env, d1@),
            ));
            assert(netlist::bits(b@, env, bc@) == field::plus(
                netlist::bits(n0, env, q.b@),
                netlist::bits(n4, env, c1@),
            ));
            assert(netlist::bits(b@, env, b1@) == rotated(
                netlist::bits(b@, env, bc@),
                r2 as int,
            ));
            assert(netlist::bits(b@, env, a1@) == netlist::bits(n2, env, a1@));
            assert(netlist::bits(b@, env, c1@) == netlist::bits(n4, env, c1@));
            assert(netlist::bits(b@, env, d1@) == netlist::bits(n3, env, d1@));
        }
    }
    r
}

/// The quarter-round on four words of the state.
fn mix<T: CircuitTrait>(
    b: &mut T,
    s: &mut Vec<Vec<usize>>,
    ia: usize,
    ib: usize,
    ic: usize,
    id: usize,
    mx: &Vec<usize>,
    my: &Vec<usize>,
)
    requires
        old(b).inv(),
        old(s)@.len() == 16,
        netlist::all_below(old(s)@, 32, old(b)@.next),
        word_wires(mx@, old(b)@.next),
        word_wires(my@, old(b)@.next),
        ia < 16,
        ib < 16,
        ic < 16,
        id < 16,
        ia != ib,
        ia != ic,
        ia != id,
        ib != ic,
        ib != id,
        ic != id,
    ensures
        final(b).inv(),
        netlist::ext(old(b)@, final(b)@),
        final(s)@.len() == 16,
        netlist::all_below(final(s)@, 32, final(b)@.next),
        forall|env: Env| #[trigger]
            netlist::words(final(b)@, env, final(s)@) == mix_at(
                netlist::words(old(b)@, env, old(s)@),
                ia as int,
                ib as int,
                ic as int,
                id as int,
                netlist::bits(old(b)@, env, mx@),
                netlist::bits(old(b)@, env, my@),
            ),
        netlist::within(old(b)@, final(b)@, 186),
{
    let ghost n0 = b@;
    let ghost s0 = s@;
    let q = Quad {
        a: tower::copied(s[ia].as_slice()),
        b: tower::copied(s[ib].as_slice()),
        c: tower::copied(s[ic].as_slice()),
        d: tower::copied(s[id].as_slice()),
    };
    let q1 = half_mix(b, &q, mx.as_slice(), 16, 12);
    let ghost n1 = b@;
    let q2 = half_mix(b, &q1, my.as_slice(), 8, 7);
    let ghost q2v = q2;
    s.set(ia, q2.a);
    s.set(ib, q2.b);
    s.set(ic, q2.c);
    s.set(id, q2.d);
    proof {
        assert forall|env: Env| #[trigger]
            netlist::words(b@, env, s@) == mix_at(
                netlist::words(n0, env, s0),
                ia as int,
                ib as int,
                ic as int,
                id as int,
                netlist::bits(n0, env, mx@),
                netlist::bits(n0, env, my@),
            ) by {
            assert(q1.value(n1, env) == half_mixed(
                q.value(n0, env),
                netlist::bits(n0, env, mx@),
                16,
                12,
            ));
            assert(q2v.value(b@, env) == half_mixed(
                q1.value(n1, env),
                netlist::bits(n1, env, my@),
                8,
                7,
            ));
            assert(netlist::bits(n1, env, my@) == netlist::bits(n0, env, my@));
            let w0 = netlist::words(n0, env, s0);
            let (va, vb, vc, vd) = mixed(
                w0[ia as int],
                w0[ib as int],
                w0[ic as int],
                w0[id as int],
                netlist::bits(n0, env, mx@),
                netlist::bits(n0, env, my@),
            );
            let w = netlist::words(b@, env, s@);
            let want = w0.update(ia as int, va).update(ib as int, vb).update(ic as int, vc).update(
                id as int,
                vd,
            );
            assert forall|i: int| 0 <= i < 16 implies w[i] == want[i] by {
                if i != ia && i != ib && i != ic && i != id {
                    assert(s@[i] == s0[i]);
                    assert(s0[i]@.len() == 32 && netlist::below(s0[i]@, n0.next));
                    assert(netlist::bits(b@, env, s0[i]@) == netlist::bits(n0, env, s0[i]@));
                }
            }
            assert(w =~= want);
        }
    }
}

/// One round: the columns, then the diagonals.
#[verifier::rlimit(40)]
fn mix_round<T: CircuitTrait>(b: &mut T, s: &mut Vec<Vec<usize>>, m: &Vec<Vec<usize>>)
    requires
        old(b).inv(),
        old(s)@.len() == 16,
        m@.len() == 16,
        netlist::all_below(old(s)@, 32, old(b)@.next),
        netlist::all_below(m@, 32, old(b)@.next),
    ensures
        final(b).inv(),
        netlist::ext(old(b)@, final(b)@),
        final(s)@.len() == 16,
        netlist::all_below(final(s)@, 32, final(b)@.next),
        forall|env: Env| #[trigger]
            netlist::words(final(b)@, env, final(s)@) == round(
                netlist::words(old(b)@, env, old(s)@),
                netlist::words(old(b)@, env, m@),
            ),
        netlist::within(old(b)@, final(b)@, 1488),
{
    let ghost n0 = b@;
    let ghost s0 = s@;
    mix(b, s, 0, 4, 8, 12, &m[0], &m[1]);
    let ghost n1 = b@;
    let ghost s1 = s@;
    mix(b, s, 1, 5, 9, 13, &m[2], &m[3]);
    let ghost n2 = b@;
    let ghost s2 = s@;
    mix(b, s, 2, 6, 10, 14, &m[4], &m[5]);
    let ghost n3 = b@;
    let ghost s3 = s@;
    mix(b, s, 3, 7, 11, 15, &m[6], &m[7]);
    let ghost n4 = b@;
    let ghost s4 = s@;
    mix(b, s, 0, 5, 10, 15, &m[8], &m[9]);
    let ghost n5 = b@;
    let ghost s5 = s@;
    mix(b, s, 1, 6, 11, 12, &m[10], &m[11]);
    let ghost n6 = b@;
    let ghost s6 = s@;
    mix(b, s, 2, 7, 8, 13, &m[12], &m[13]);
    let ghost n7 = b@;
    let ghost s7 = s@;
    mix(b, s, 3, 4, 9, 14, &m[14], &m[15]);
    proof {
        assert forall|env: Env| #[trigger]
            netlist::words(b@, env, s@) == round(
                netlist::words(n0, env, s0),
                netlist::words(n0, env, m@),
            ) by {
            let ms = netlist::words(n0, env, m@);
            assert(netlist::words(n0, env, m@) == ms);
            assert(netlist::bits(n0, env, m@[0]@) == ms[0]);
            assert(netlist::bits(n0, env, m@[1]@) == ms[1]);
            assert(netlist::words(n1, env, s1) == mix_at(
                netlist::words(n0, env, s0),
                0,
                4,
                8,
                12,
                ms[0],
                ms[1],
            ));
            assert(netlist::words(n1, env, m@) == ms);
            assert(netlist::bits(n1, env, m@[2]@) == ms[2]);
            assert(netlist::bits(n1, env, m@[3]@) == ms[3]);
            assert(netlist::words(n2, env, s2) == mix_at(
                netlist::words(n1, env, s1),
                1,
                5,
                9,
                13,
                ms[2],
                ms[3],
            ));
            assert(netlist::words(n2, env, m@) == ms);
            assert(netlist::bits(n2, env, m@[4]@) == ms[4]);
            assert(netlist::bits(n2, env, m@[5]@) == ms[5]);
            assert(netlist::words(n3, env, s3) == mix_at(
                netlist::words(n2, env, s2),
                2,
                6,
                10,
                14,
                ms[4],
                ms[5],
            ));
            assert(netlist::words(n3, env, m@) == ms);
            assert(netlist::bits(n3, env, m@[6]@) == ms[6]);
            assert(netlist::bits(n3, env, m@[7]@) == ms[7]);
            assert(netlist::words(n4, env, s4) == mix_at(
                netlist::words(n3, env, s3),
                3,
                7,
                11,
                15,
                ms[6],
                ms[7],
            ));
            assert(netlist::words(n4, env, m@) == ms);
            assert(netlist::bits(n4, env, m@[8]@) == ms[8]);
            assert(netlist::bits(n4, env, m@[9]@) == ms[9]);
            assert(netlist::words(n5, env, s5) == mix_at(
                netlist::words(n4, env, s4),
                0,
                5,
                10,
                15,
                ms[8],
                ms[9],
            ));
            assert(netlist::words(n5, env, m@) == ms);
            assert(netlist::bits(n5, env, m@[10]@) == ms[10]);
            assert(netlist::bits(n5, env, m@[11]@) == ms[11]);
            assert(netlist::words(n6, env, s6) == mix_at(
                netlist::words(n5, env, s5),
                1,
                6,
                11,
                12,
                ms[10],
                ms[11],
            ));
            assert(netlist::words(n6, env, m@) == ms);
            assert(netlist::bits(n6, env, m@[12]@) == ms[12]);
            assert(netlist::bits(n6, env, m@[13]@) == ms[13]);
            assert(netlist::words(n7, env, s7) == mix_at(
                netlist::words(n6, env, s6),
                2,
                7,
                8,
                13,
                ms[12],
                ms[13],
            ));
            assert(netlist::words(n7, env, m@) == ms);
            assert(netlist::bits(n7, env, m@[14]@) == ms[14]);
            assert(netlist::bits(n7, env, m@[15]@) == ms[15]);
            assert(netlist::words(b@, env, s@) == mix_at(
                netlist::words(n7, env, s7),
                3,
                4,
                9,
                14,
                ms[14],
                ms[15],
            ));
        }
    }
}

/// The message words of the next round: a rewiring.
fn permute_message(m: &Vec<Vec<usize>>) -> (r: Vec<Vec<usize>>)
    requires
        m@.len() == 16,
    ensures
        r@.len() == 16,
        forall|n: nat| netlist::all_below(m@, 32, n) ==> #[trigger] netlist::all_below(r@, 32, n),
        forall|c: Netlist, env: Env| #[trigger]
            netlist::words(c, env, r@) == permuted(netlist::words(c, env, m@)),
{
    let order: [usize; 16] = [2, 6, 3, 10, 7, 0, 4, 13, 1, 11, 12, 5, 9, 14, 15, 8];
    let mut r: Vec<Vec<usize>> = Vec::new();
    assert forall|i: int| 0 <= i < 16 implies #[trigger] order@[i] == schedule()[i]
        && order@[i] < 16 by {}
    while r.len() < 16
        invariant
            m@.len() == 16,
            r@.len() <= 16,
            forall|i: int|
                0 <= i < 16 ==> #[trigger] order@[i] == schedule()[i] && order@[i] < 16,
            forall|i: int| 0 <= i < r@.len() ==> (#[trigger] r@[i])@ == m@[schedule()[i]]@,
        decreases 16 - r@.len(),
    {
        let k = r.len();
        assert(order@[k as int] == schedule()[k as int]);
        let from = order[k];
        r.push(tower::copied(m[from].as_slice()));
    }
    proof {
        assert forall|n: nat| netlist::all_below(m@, 32, n) implies #[trigger] netlist::all_below(
            r@,
            32,
            n,
        ) by {
            assert forall|i: int| 0 <= i < 16 implies (#[trigger] r@[i])@.len() == 32
                && netlist::below(r@[i]@, n) by {
                assert(order@[i] == schedule()[i]);
                assert(m@[schedule()[i]]@.len() == 32);
            }
        }
        assert forall|c: Netlist, env: Env| #[trigger]
            netlist::words(c, env, r@) == permuted(netlist::words(c, env, m@)) by {
            assert forall|i: int| 0 <= i < 16 implies netlist::words(c, env, r@)[i] == permuted(
                netlist::words(c, env, m@),
            )[i] by {
                assert(order@[i] == schedule()[i]);
                assert(r@[i]@ == m@[schedule()[i]]@);
            }
            assert(netlist::words(c, env, r@) =~= permuted(netlist::words(c, env, m@)));
        }
    }
    r
}

/// Wires driven by a constant word.
fn constant_word<T: CircuitTrait>(b: &mut T, v: u32) -> (r: Vec<usize>)
    requires
        old(b).inv(),
    ensures
        final(b).inv(),
        final(b)@ == old(b)@,
        word_wires(r@, final(b)@.next),
        forall|env: Env| #[trigger] netlist::bits(final(b)@, env, r@) == word(v),
{
    tower::constant(b, v as u128, 32)
}

/// Constant words.
fn constant_words<T: CircuitTrait>(b: &mut T, vs: &[u32]) -> (r: Vec<Vec<usize>>)
    requires
        old(b).inv(),
    ensures
        final(b).inv(),
        final(b)@ == old(b)@,
        r@.len() == vs@.len(),
        netlist::all_below(r@, 32, final(b)@.next),
        forall|env: Env| #[trigger]
            netlist::words(final(b)@, env, r@) == Seq::new(vs@.len(), |i: int| word(vs@[i])),
{
    let ghost first = b@;
    let mut r: Vec<Vec<usize>> = Vec::new();
    while r.len() < vs.len()
        invariant
            b.inv(),
            b@ == first,
            r@.len() <= vs@.len(),
            netlist::all_below(r@, 32, first.next),
            forall|env: Env, i: int|
                0 <= i < r@.len() ==> #[trigger] netlist::bits(first, env, r@[i]@) == word(vs@[i]),
        decreases vs@.len() - r@.len(),
    {
        let k = r.len();
        let w = constant_word(b, vs[k]);
        r.push(w);
    }
    proof {
        assert forall|env: Env| #[trigger]
            netlist::words(b@, env, r@) == Seq::new(vs@.len(), |i: int| word(vs@[i])) by {
            assert forall|i: int| 0 <= i < r@.len() implies netlist::words(b@, env, r@)[i] == word(
                vs@[i],
            ) by {
                assert(netlist::bits(first, env, r@[i]@) == word(vs@[i]));
            }
            assert(netlist::words(b@, env, r@) =~= Seq::new(vs@.len(), |i: int| word(vs@[i])));
        }
    }
    r
}

/// The initial chaining value.
fn constant_iv<T: CircuitTrait>(b: &mut T) -> (r: Vec<Vec<usize>>)
    requires
        old(b).inv(),
    ensures
        final(b).inv(),
        final(b)@ == old(b)@,
        r@.len() == 8,
        netlist::all_below(r@, 32, final(b)@.next),
        forall|env: Env| #[trigger] netlist::words(final(b)@, env, r@) == iv(),
{
    let vs: [u32; 8] = [
        0x6A09E667,
        0xBB67AE85,
        0x3C6EF372,
        0xA54FF53A,
        0x510E527F,
        0x9B05688C,
        0x1F83D9AB,
        0x5BE0CD19,
    ];
    let r = constant_words(b, vs.as_slice());
    proof {
        assert(Seq::new(8, |i: int| word(vs@[i])) =~= iv());
    }
    r
}

/// The wires of some vectors.
fn copied_words(x: &Vec<Vec<usize>>) -> (r: Vec<Vec<usize>>)
    ensures
        r@.len() == x@.len(),
        forall|i: int| 0 <= i < x@.len() ==> (#[trigger] r@[i])@ == x@[i]@,
{
    let mut r: Vec<Vec<usize>> = Vec::new();
    while r.len() < x.len()
        invariant
            r@.len() <= x@.len(),
            forall|i: int| 0 <= i < r@.len() ==> (#[trigger] r@[i])@ == x@[i]@,
        decreases x@.len() - r@.len(),
    {
        let k = r.len();
        r.push(tower::copied(x[k].as_slice()));
    }
    r
}

/// The state that a compression starts from.
fn start_state<T: CircuitTrait>(
    b: &mut T,
    cv: &Vec<Vec<usize>>,
    counter: u64,
    len: u32,
    flags: u32,
) -> (s: Vec<Vec<usize>>)
    requires
        old(b).inv(),
        cv@.len() == 8,
        netlist::all_below(cv@, 32, old(b)@.next),
    ensures
        final(b).inv(),
        final(b)@ == old(b)@,
        s@.len() == 16,
        netlist::all_below(s@, 32, final(b)@.next),
        forall|env: Env| #[trigger]
            netlist::words(final(b)@, env, s@) == initial_state(
                netlist::words(old(b)@, env, cv@),
                counter,
                len,
                flags,
            ),
{
    let ghost first = b@;
    let vs: [u32; 8] = [
        0x6A09E667,
        0xBB67AE85,
        0x3C6EF372,
        0xA54FF53A,
        (counter % 0x1_0000_0000) as u32,
        (counter / 0x1_0000_0000) as u32,
        len,
        flags,
    ];
    let mut s = copied_words(cv);
    let ghost low = s@;
    let mut high = constant_words(b, vs.as_slice());
    let ghost hi = high@;
    s.append(&mut high);
    proof {
        assert(s@ == low + hi);
        assert forall|i: int| 0 <= i < 16 implies (#[trigger] s@[i])@.len() == 32
            && netlist::below(s@[i]@, first.next) by {
            if i < 8 {
                assert(s@[i] == low[i]);
                assert(cv@[i]@.len() == 32);
            } else {
                assert(s@[i] == hi[i - 8]);
            }
        }
        assert forall|env: Env| #[trigger]
            netlist::words(b@, env, s@) == initial_state(
                netlist::words(first, env, cv@),
                counter,
                len,
                flags,
            ) by {
            let w = netlist::words(b@, env, s@);
            let want = initial_state(netlist::words(first, env, cv@), counter, len, flags);
            assert(netlist::words(b@, env, hi) == Seq::new(8, |i: int| word(vs@[i])));
            assert forall|i: int| 0 <= i < 16 implies w[i] == want[i] by {
                if i < 8 {
                    assert(s@[i] == low[i]);
                    assert(low[i]@ == cv@[i]@);
                } else {
                    assert(s@[i] == hi[i - 8]);
                    assert(netlist::words(b@, env, hi)[i - 8] == word(vs@[i - 8]));
                }
            }
            assert(w =~= want);
        }
    }
    s
}

/// The chaining value after one block.
fn compress_block<T: CircuitTrait>(
    b: &mut T,
    cv: &Vec<Vec<usize>>,
    m: &Vec<Vec<usize>>,
    counter: u64,
    len: u32,
    flags: u32,
) -> (r: Vec<Vec<usize>>)
    requires
        old(b).inv(),
        cv@.len() == 8,
        m@.len() == 16,
        netlist::all_below(cv@, 32, old(b)@.next),
        netlist::all_below(m@, 32, old(b)@.next),
    ensures
        final(b).inv(),
        netlist::ext(old(b)@, final(b)@),
        r@.len() == 8,
        netlist::all_below(r@, 32, final(b)@.next),
        forall|env: Env| #[trigger]
            netlist::words(final(b)@, env, r@) == compress(
                netlist::words(old(b)@, env, cv@),
                netlist::words(old(b)@, env, m@),
                counter,
                len,
                flags,
            ),
        netlist::within(old(b)@, final(b)@, compression_ands(1)),
{
    let ghost first = b@;
    let mut s = start_state(b, cv, counter, len, flags);
    let mut msg = copied_words(m);
    proof {
        netlist::lemma_ext_refl(first);
        assert(netlist::all_below(msg@, 32, first.next)) by {
            assert forall|i: int| 0 <= i < 16 implies (#[trigger] msg@[i])@.len() == 32
                && netlist::below(msg@[i]@, first.next) by {
                assert(m@[i]@.len() == 32);
            }
        }
        assert forall|env: Env| #[trigger]
            netlist::words(b@, env, msg@) == netlist::words(first, env, m@) by {
            assert(netlist::words(b@, env, msg@) =~= netlist::words(first, env, m@));
        }
    }
    let mut n: usize = 0;
    while n < 7
        invariant
            b.inv(),
            n <= 7,
            s@.len() == 16,
            msg@.len() == 16,
            netlist::ext(first, b@),
            netlist::within(first, b@, 1488 * n),
            netlist::all_below(s@, 32, b@.next),
            netlist::all_below(msg@, 32, b@.next),
            forall|env: Env| #[trigger]
                netlist::words(b@, env, msg@) == message_of(
                    netlist::words(first, env, m@),
                    n as nat,
                ),
            forall|env: Env| #[trigger]
                netlist::words(b@, env, s@) == rounds(
                    initial_state(netlist::words(first, env, cv@), counter, len, flags),
                    netlist::words(first, env, m@),
                    n as nat,
                ),
        decreases 7 - n,
    {
        let ghost n0 = b@;
        let ghost s0 = s@;
        let ghost msg0 = msg@;
        mix_round(b, &mut s, &msg);
        let next = permute_message(&msg);
        assert(netlist::all_below(next@, 32, b@.next));
        proof {
            assert forall|env: Env| #[trigger]
                netlist::words(b@, env, next@) == message_of(
                    netlist::words(first, env, m@),
                    (n + 1) as nat,
                ) by {
                assert(netlist::words(b@, env, msg0) == netlist::words(n0, env, msg0));
            }
            assert forall|env: Env| #[trigger]
                netlist::words(b@, env, s@) == rounds(
                    initial_state(netlist::words(first, env, cv@), counter, len, flags),
                    netlist::words(first, env, m@),
                    (n + 1) as nat,
                ) by {
                assert(netlist::words(n0, env, s0) == rounds(
                    initial_state(netlist::words(first, env, cv@), counter, len, flags),
                    netlist::words(first, env, m@),
                    n as nat,
                ));
                assert(netlist::words(n0, env, msg0) == message_of(
                    netlist::words(first, env, m@),
                    n as nat,
                ));
            }
        }
        msg = next;
        n = n + 1;
    }
    let ghost n7 = b@;
    let mut r: Vec<Vec<usize>> = Vec::new();
    while r.len() < 8
        invariant
            b.inv(),
            s@.len() == 16,
            r@.len() <= 8,
            netlist::ext(first, n7),
            netlist::ext(n7, b@) || b@ == n7,
            netlist::ext(first, b@),
            netlist::within(first, b@, compression_ands(1)),
            netlist::all_below(s@, 32, n7.next),
            n7.next <= b@.next,
            netlist::all_below(r@, 32, b@.next),
            forall|env: Env| #[trigger]
                netlist::words(n7, env, s@) == rounds(
                    initial_state(netlist::words(first, env, cv@), counter, len, flags),
                    netlist::words(first, env, m@),
                    7,
                ),
            forall|env: Env, i: int|
                0 <= i < r@.len() ==> #[trigger] netlist::bits(b@, env, r@[i]@) == field::plus(
                    netlist::words(n7, env, s@)[i],
                    netlist::words(n7, env, s@)[i + 8],
                ),
        decreases 8 - r@.len(),
    {
        let k = r.len();
        let ghost c0 = b@;
        let ghost r0 = r@;
        proof {
            assert(s@[k as int]@.len() == 32);
            assert(s@[k + 8]@.len() == 32);
        }
        let w = tower::add(b, s[k].as_slice(), s[k + 8].as_slice());
        r.push(w);
        proof {
            if c0 == n7 {
                assert(netlist::ext(n7, b@));
            }
            assert forall|env: Env, i: int| 0 <= i < r@.len() implies #[trigger] netlist::bits(
                b@,
                env,
                r@[i]@,
            ) == field::plus(
                netlist::words(n7, env, s@)[i],
                netlist::words(n7, env, s@)[i + 8],
            ) by {
                if i < k {
                    assert(r@[i] == r0[i]);
                    assert(r0[i]@.len() == 32 && netlist::below(r0[i]@, c0.next));
                    assert(netlist::bits(c0, env, r0[i]@) == netlist::bits(b@, env, r0[i]@));
                } else {
                    assert(netlist::bits(c0, env, s@[k as int]@) == netlist::bits(
                        n7,
                        env,
                        s@[k as int]@,
                    ));
                    assert(netlist::bits(c0, env, s@[k + 8]@) == netlist::bits(
                        n7,
                        env,
                        s@[k + 8]@,
                    ));
                }
            }
        }
    }
    proof {
        assert forall|env: Env| #[trigger]
            netlist::words(b@, env, r@) == compress(
                netlist::words(first, env, cv@),
                netlist::words(first, env, m@),
                counter,
                len,
                flags,
            ) by {
            let want = compress(
                netlist::words(first, env, cv@),
                netlist::words(first, env, m@),
                counter,
                len,
                flags,
            );
            let st = netlist::words(n7, env, s@);
            assert forall|i: int| 0 <= i < 8 implies netlist::words(b@, env, r@)[i]
                == want[i] by {
                assert(netlist::bits(b@, env, r@[i]@) == field::plus(st[i], st[i + 8]));
            }
            assert(netlist::words(b@, env, r@) =~= want);
        }
    }
    r
}

/// The words of block `k` of a chunk, zero-padded.
fn block_wires<T: CircuitTrait>(b: &mut T, chunk: &[usize], k: usize) -> (r: Vec<Vec<usize>>)
    requires
        old(b).inv(),
        netlist::below(chunk@, old(b)@.next),
        512 * k <= chunk@.len() <= usize::MAX - 512,
    ensures
        final(b).inv(),
        final(b)@ == old(b)@,
        r@.len() == 16,
        netlist::all_below(r@, 32, final(b)@.next),
        forall|env: Env| #[trigger]
            netlist::words(final(b)@, env, r@) == block_words(
                block(netlist::bits(old(b)@, env, chunk@), k as nat),
            ),
{
    let ghost first = b@;
    let zero = b.zero();
    proof {
        b.lemma_inv();
    }
    let mut r: Vec<Vec<usize>> = Vec::new();
    while r.len() < 16
        invariant
            b@ == first,
            netlist::wf(first),
            zero == 0,
            netlist::below(chunk@, first.next),
            512 * k <= chunk@.len() <= usize::MAX - 512,
            r@.len() <= 16,
            netlist::all_below(r@, 32, first.next),
            forall|env: Env, j: int|
                0 <= j < r@.len() ==> #[trigger] netlist::bits(first, env, r@[j]@) == block_words(
                    block(netlist::bits(first, env, chunk@), k as nat),
                )[j],
        decreases 16 - r@.len(),
    {
        let j = r.len();
        let mut w: Vec<usize> = Vec::new();
        while w.len() < 32
            invariant
                netlist::wf(first),
                zero == 0,
                netlist::below(chunk@, first.next),
                512 * k <= chunk@.len() <= usize::MAX - 512,
                j < 16,
                w@.len() <= 32,
                forall|i: int|
                    0 <= i < w@.len() ==> #[trigger] w@[i] == (if 512 * k + 32 * j + i
                        < chunk@.len() {
                        chunk@[512 * k + 32 * j + i]
                    } else {
                        0usize
                    }),
            decreases 32 - w@.len(),
        {
            let at = 512 * k + 32 * j + w.len();
            if at < chunk.len() {
                w.push(chunk[at]);
            } else {
                w.push(zero);
            }
        }
        proof {
            assert(netlist::below(w@, first.next));
            assert forall|env: Env| #[trigger]
                netlist::bits(first, env, w@) == block_words(
                    block(netlist::bits(first, env, chunk@), k as nat),
                )[j as int] by {
                netlist::lemma_constants(first, env);
                let want = block_words(
                    block(netlist::bits(first, env, chunk@), k as nat),
                )[j as int];
                assert(netlist::bits(first, env, w@) =~= want);
            }
        }
        let ghost r0 = r@;
        r.push(w);
        proof {
            assert forall|env: Env, i: int| 0 <= i < r@.len() implies #[trigger] netlist::bits(
                first,
                env,
                r@[i]@,
            ) == block_words(block(netlist::bits(first, env, chunk@), k as nat))[i] by {
                if i < j {
                    assert(r@[i] == r0[i]);
                }
            }
        }
    }
    proof {
        assert forall|env: Env| #[trigger]
            netlist::words(b@, env, r@) == block_words(
                block(netlist::bits(first, env, chunk@), k as nat),
            ) by {
            let want = block_words(block(netlist::bits(first, env, chunk@), k as nat));
            assert forall|i: int| 0 <= i < 16 implies netlist::words(b@, env, r@)[i]
                == want[i] by {
                assert(netlist::bits(first, env, r@[i]@) == want[i]);
            }
            assert(netlist::words(b@, env, r@) =~= want);
        }
    }
    r
}

/// The chaining value of a chunk of at most 1024 bytes.
fn hash_chunk<T: CircuitTrait>(b: &mut T, chunk: &[usize], counter: u64, root: bool) -> (r: Vec<
    Vec<usize>,
>)
    requires
        old(b).inv(),
        netlist::below(chunk@, old(b)@.next),
        chunk@.len() % 8 == 0,
        chunk@.len() <= 8192,
    ensures
        final(b).inv(),
        netlist::ext(old(b)@, final(b)@),
        r@.len() == 8,
        netlist::all_below(r@, 32, final(b)@.next),
        forall|env: Env| #[trigger]
            netlist::words(final(b)@, env, r@) == chunk_cv(
                netlist::bits(old(b)@, env, chunk@),
                counter,
                root,
                block_count(chunk@.len() / 8),
            ),
        netlist::within(
            old(b)@,
            final(b)@,
            compression_ands(block_count(chunk@.len() / 8)),
        ),
{
    let ghost first = b@;
    let len = chunk.len() / 8;
    let count = if len == 0 {
        1
    } else {
        (len + 63) / 64
    };
    let mut cv = constant_iv(b);
    proof {
        netlist::lemma_ext_refl(first);
    }
    let mut k: usize = 0;
    while k < count
        invariant
            b.inv(),
            k <= count,
            count == block_count(len as nat),
            len == chunk@.len() / 8,
            chunk@.len() % 8 == 0,
            chunk@.len() <= 8192,
            netlist::below(chunk@, first.next),
            netlist::ext(first, b@),
            netlist::within(first, b@, compression_ands(k as nat)),
            cv@.len() == 8,
            netlist::all_below(cv@, 32, b@.next),
            forall|env: Env| #[trigger]
                netlist::words(b@, env, cv@) == chunk_cv(
                    netlist::bits(first, env, chunk@),
                    counter,
                    root,
                    k as nat,
                ),
        decreases count - k,
    {
        let ghost c0 = b@;
        let ghost cv0 = cv@;
        let m = block_wires(b, chunk, k);
        let bytes_left = if len >= 64 * (k + 1) {
            64
        } else {
            len - 64 * k
        };
        let start: u32 = if k == 0 {
            1
        } else {
            0
        };
        let end: u32 = if k + 1 == count {
            if root {
                10
            } else {
                2
            }
        } else {
            0
        };
        let next = compress_block(b, &cv, &m, counter, bytes_left as u32, start + end);
        proof {
            assert forall|env: Env| #[trigger]
                netlist::words(b@, env, next@) == chunk_cv(
                    netlist::bits(first, env, chunk@),
                    counter,
                    root,
                    (k + 1) as nat,
                ) by {
                assert(netlist::words(c0, env, cv0) == chunk_cv(
                    netlist::bits(first, env, chunk@),
                    counter,
                    root,
                    k as nat,
                ));
                assert(netlist::bits(c0, env, chunk@) == netlist::bits(first, env, chunk@));
                assert(netlist::words(c0, env, m@) == block_words(
                    block(netlist::bits(c0, env, chunk@), k as nat),
                ));
            }
        }
        cv = next;
        k = k + 1;
    }
    cv
}

/// Two chaining values as the words of one block.
fn joined_words(left: Vec<Vec<usize>>, right: Vec<Vec<usize>>) -> (r: Vec<Vec<usize>>)
    requires
        left@.len() == 8,
        right@.len() == 8,
    ensures
        r@.len() == 16,
        forall|n: nat|
            netlist::all_below(left@, 32, n) && netlist::all_below(right@, 32, n)
                ==> #[trigger] netlist::all_below(r@, 32, n),
        forall|c: Netlist, env: Env| #[trigger]
            netlist::words(c, env, r@) == netlist::words(c, env, left@) + netlist::words(
                c,
                env,
                right@,
            ),
{
    let ghost lw = left@;
    let ghost rw = right@;
    let mut r = left;
    let mut right = right;
    r.append(&mut right);
    proof {
        assert(r@ == lw + rw);
        assert forall|n: nat|
            netlist::all_below(lw, 32, n) && netlist::all_below(rw, 32, n) implies
            #[trigger] netlist::all_below(r@, 32, n) by {
            assert forall|i: int| 0 <= i < 16 implies (#[trigger] r@[i])@.len() == 32
                && netlist::below(r@[i]@, n) by {
                if i < 8 {
                    assert(r@[i] == lw[i]);
                } else {
                    assert(r@[i] == rw[i - 8]);
                }
            }
        }
        assert forall|c: Netlist, env: Env| #[trigger]
            netlist::words(c, env, r@) == netlist::words(c, env, lw) + netlist::words(
                c,
                env,
                rw,
            ) by {
            assert(netlist::words(c, env, r@) =~= netlist::words(c, env, lw) + netlist::words(
                c,
                env,
                rw,
            ));
        }
    }
    r
}

/// The chaining value of the subtree over `msg`.
#[verifier::rlimit(60)]
#[verifier::spinoff_prover]
fn hash_subtree<T: CircuitTrait>(b: &mut T, msg: &[usize], chunk: u64, root: bool) -> (r: Vec<
    Vec<usize>,
>)
    requires
        old(b).inv(),
        netlist::below(msg@, old(b)@.next),
        msg@.len() % 8 == 0,
        chunk + msg@.len() <= u64::MAX,
    ensures
        final(b).inv(),
        netlist::ext(old(b)@, final(b)@),
        r@.len() == 8,
        netlist::all_below(r@, 32, final(b)@.next),
        forall|env: Env| #[trigger]
            netlist::words(final(b)@, env, r@) == subtree(
                netlist::bits(old(b)@, env, msg@),
                chunk as nat,
                root,
            ),
        netlist::within(
            old(b)@,
            final(b)@,
            compression_ands(compressions(msg@.len())),
        ),
    decreases msg@.len(),
{
    let ghost first = b@;
    let len = msg.len() / 8;
    if len <= 1024 {
        return hash_chunk(b, msg, chunk, root);
    }
    proof {
        lemma_left_chunks(len as nat);
    }
    let depth = super::reference::floor_log2((len - 1) / 1024);
    let left_len = super::reference::two_to(depth);
    let at = 8192 * left_len;
    let (left_msg, right_msg) = msg.split_at(at);
    let left = hash_subtree(b, left_msg, chunk, false);
    let ghost n1 = b@;
    let right = hash_subtree(b, right_msg, chunk + left_len as u64, false);
    let ghost n2 = b@;
    let ghost lw = left@;
    let ghost rw = right@;
    let block = joined_words(left, right);
    let cv = constant_iv(b);
    assert(netlist::all_below(block@, 32, n2.next));
    let flags: u32 = if root {
        12
    } else {
        4
    };
    let r = compress_block(b, &cv, &block, 0, 64, flags);
    proof {
        assert forall|env: Env| #[trigger]
            netlist::words(b@, env, r@) == subtree(
                netlist::bits(first, env, msg@),
                chunk as nat,
                root,
            ) by {
            let m = netlist::bits(first, env, msg@);
            assert(netlist::bits(first, env, left_msg@) =~= m.take(at as int));
            assert(netlist::bits(first, env, right_msg@) =~= m.skip(at as int));
            assert(netlist::bits(n1, env, right_msg@) == netlist::bits(first, env, right_msg@));
            assert(netlist::words(n1, env, lw) == subtree(m.take(at as int), chunk as nat, false));
            assert(netlist::words(n2, env, rw) == subtree(
                m.skip(at as int),
                (chunk + left_len) as nat,
                false,
            ));
            assert(netlist::words(n2, env, lw) == netlist::words(n1, env, lw));
            assert(netlist::words(n2, env, cv@) == iv());
            assert(netlist::words(b@, env, r@) == compress(
                iv(),
                netlist::words(n2, env, block@),
                0,
                64,
                flags,
            ));
            lemma_subtree_join(m, chunk as nat, root);
        }
    }
    r
}

/// The digest of a byte string on wires, eight wires to a byte.
pub fn hash_wires<T: CircuitTrait>(b: &mut T, msg: &[usize]) -> (r: Vec<usize>)
    requires
        old(b).inv(),
        netlist::below(msg@, old(b)@.next),
        msg@.len() % 8 == 0,
    ensures
        final(b).inv(),
        netlist::ext(old(b)@, final(b)@),
        r@.len() == 256,
        netlist::below(r@, final(b)@.next),
        forall|env: Env| #[trigger]
            netlist::bits(final(b)@, env, r@) == hash_bits(netlist::bits(old(b)@, env, msg@)),
        netlist::within(
            old(b)@,
            final(b)@,
            compression_ands(compressions(msg@.len())),
        ),
{
    let ghost first = b@;
    let n = msg.len();
    let ws = hash_subtree(b, msg, 0, true);
    let mut r: Vec<usize> = Vec::new();
    let mut k: usize = 0;
    proof {
        assert forall|env: Env| #[trigger] netlist::bits(b@, env, r@) == flat(
            netlist::words(b@, env, ws@).take(0),
        ) by {
            assert(netlist::words(b@, env, ws@).take(0) =~= Seq::<Word>::empty());
            assert(netlist::bits(b@, env, r@) =~= Seq::<bool>::empty());
        }
    }
    while k < 8
        invariant
            k <= 8,
            ws@.len() == 8,
            netlist::all_below(ws@, 32, b@.next),
            r@.len() == 32 * k,
            netlist::below(r@, b@.next),
            forall|env: Env| #[trigger]
                netlist::bits(b@, env, r@) == flat(netlist::words(b@, env, ws@).take(k as int)),
        decreases 8 - k,
    {
        let ghost r0 = r@;
        let mut w = tower::copied(ws[k].as_slice());
        proof {
            assert(ws@[k as int]@.len() == 32);
        }
        r.append(&mut w);
        proof {
            assert(r@ == r0 + ws@[k as int]@);
            assert forall|env: Env| #[trigger] netlist::bits(b@, env, r@) == flat(
                netlist::words(b@, env, ws@).take(k + 1),
            ) by {
                let all = netlist::words(b@, env, ws@);
                assert(all.take(k + 1).drop_last() =~= all.take(k as int));
                tower::lemma_concat(b@, env, r0, ws@[k as int]@);
                assert(netlist::bits(b@, env, r0) == flat(all.take(k as int)));
            }
        }
        k = k + 1;
    }
    proof {
        assert forall|env: Env| #[trigger]
            netlist::bits(b@, env, r@) == hash_bits(netlist::bits(first, env, msg@)) by {
            let all = netlist::words(b@, env, ws@);
            assert(all.take(8) =~= all);
        }
    }
    r
}

} // verus!

//! The width-16 permutation in plain integers, with the sponge over rows and
//! the tree compression built on it.
use super::constants;
use super::constants::{EXTERNAL_FINAL, EXTERNAL_INITIAL, HALF_EXTERNAL, INTERNAL, INTERNAL_ROUNDS, P, WIDTH};
use super::field;
use vstd::prelude::*;

verus! {

/// Elements of a digest, and of the sponge's rate.
pub const DIGEST: usize = 8;

/// A list of machine words as integers.
pub open spec fn ints(s: Seq<u32>) -> Seq<int> {
    Seq::new(s.len(), |i: int| s[i] as int)
}

/// Canonical elements throughout.
pub open spec fn canonical(s: Seq<int>) -> bool {
    forall|i: int| 0 <= i < s.len() ==> field::canonical(#[trigger] s[i])
}

/// Row `i` of the 4x4 block `circ(2, 3, 1, 1)`.
pub open spec fn mix4(i: int, a: int, b: int, c: int, d: int) -> int {
    let p = P as int;
    if i == 0 {
        (2 * a + 3 * b + c + d) % p
    } else if i == 1 {
        (a + 2 * b + 3 * c + d) % p
    } else if i == 2 {
        (a + b + 2 * c + 3 * d) % p
    } else {
        (3 * a + b + c + 2 * d) % p
    }
}

/// The block applied to each four elements.
pub open spec fn mixed(s: Seq<int>) -> Seq<int> {
    Seq::new(
        WIDTH as nat,
        |i: int| mix4(i % 4, s[i - i % 4], s[i - i % 4 + 1], s[i - i % 4 + 2], s[i - i % 4 + 3]),
    )
}

/// The external linear layer: each block element plus its column's sum.
pub open spec fn external_linear(s: Seq<int>) -> Seq<int> {
    let m = mixed(s);
    Seq::new(
        WIDTH as nat,
        |i: int|
            (m[i] + (m[i % 4] + m[i % 4 + 4] + m[i % 4 + 8] + m[i % 4 + 12])) % (P as int),
    )
}

/// The sum of the first `k` elements.
pub open spec fn sum_to(s: Seq<int>, k: nat) -> int
    decreases k,
{
    if k == 0 {
        0
    } else {
        sum_to(s, (k - 1) as nat) + s[k - 1]
    }
}

/// The internal layer's diagonal: entry `i` applied to `x`, where `V = [-2, 1,
/// 2, 1/2, 3, 4, -1/2, -3, -4, 1/2^8, 1/8, 1/2^24, -1/2^8, -1/8, -1/16,
/// -1/2^24]`.
pub open spec fn scaled(i: int, x: int) -> int {
    if i == 0 {
        -2 * x
    } else if i == 1 {
        x
    } else if i == 2 {
        2 * x
    } else if i == 3 {
        field::shrunk(x, 1)
    } else if i == 4 {
        3 * x
    } else if i == 5 {
        4 * x
    } else if i == 6 {
        -field::shrunk(x, 1)
    } else if i == 7 {
        -3 * x
    } else if i == 8 {
        -4 * x
    } else if i == 9 {
        field::shrunk(x, 8)
    } else if i == 10 {
        field::shrunk(x, 3)
    } else if i == 11 {
        field::shrunk(x, 24)
    } else if i == 12 {
        -field::shrunk(x, 8)
    } else if i == 13 {
        -field::shrunk(x, 3)
    } else if i == 14 {
        -field::shrunk(x, 4)
    } else {
        -field::shrunk(x, 24)
    }
}

/// The internal linear layer: `s -> (1 + diag(V)) s`, the ones a full matrix.
pub open spec fn internal_linear(s: Seq<int>) -> Seq<int> {
    Seq::new(WIDTH as nat, |i: int| (scaled(i, s[i]) + sum_to(s, WIDTH as nat)) % (P as int))
}

/// Round constants added and every element cubed.
pub open spec fn keyed(s: Seq<int>, key: Seq<int>) -> Seq<int> {
    Seq::new(WIDTH as nat, |i: int| field::cube(field::plus(s[i], key[i])))
}

/// The first `n` external rounds with constants `keys`.
pub open spec fn external_rounds(s: Seq<int>, keys: Seq<int>, n: nat) -> Seq<int>
    decreases n,
{
    if n == 0 {
        s
    } else {
        let k = n - 1;
        external_linear(
            keyed(
                external_rounds(s, keys, k as nat),
                keys.subrange(WIDTH * k, WIDTH * k + WIDTH),
            ),
        )
    }
}

/// The first `n` internal rounds: only the first element is keyed and cubed.
pub open spec fn internal_rounds(s: Seq<int>, keys: Seq<int>, n: nat) -> Seq<int>
    decreases n,
{
    if n == 0 {
        s
    } else {
        let before = internal_rounds(s, keys, (n - 1) as nat);
        internal_linear(before.update(0, field::cube(field::plus(before[0], keys[n - 1]))))
    }
}

/// The permutation.
#[verifier::opaque]
pub open spec fn permutation(s: Seq<int>) -> Seq<int> {
    let first = external_rounds(
        external_linear(s),
        ints(EXTERNAL_INITIAL@),
        HALF_EXTERNAL as nat,
    );
    let middle = internal_rounds(first, ints(INTERNAL@), INTERNAL_ROUNDS as nat);
    external_rounds(middle, ints(EXTERNAL_FINAL@), HALF_EXTERNAL as nat)
}

/// `values` written over the start of `s`.
pub open spec fn overwritten(s: Seq<int>, values: Seq<int>) -> Seq<int> {
    Seq::new(
        s.len(),
        |i: int|
            if i < values.len() {
                values[i]
            } else {
                s[i]
            },
    )
}

/// The sponge over a row: each eight elements overwrite the rate and permute.
pub open spec fn absorbed(s: Seq<int>, row: Seq<int>) -> Seq<int>
    decreases row.len(),
{
    if row.len() == 0 {
        s
    } else if row.len() <= DIGEST {
        permutation(overwritten(s, row))
    } else {
        absorbed(permutation(overwritten(s, row.take(DIGEST as int))), row.skip(DIGEST as int))
    }
}

/// `n` zeros.
pub open spec fn zeros(n: nat) -> Seq<int> {
    Seq::new(n, |i: int| 0int)
}

/// The digest of a row.
pub open spec fn row_digest(row: Seq<int>) -> Seq<int> {
    absorbed(zeros(WIDTH as nat), row).take(DIGEST as int)
}

/// The digest of two children.
pub open spec fn node(left: Seq<int>, right: Seq<int>) -> Seq<int> {
    permutation(left + right).take(DIGEST as int)
}

pub proof fn lemma_external_len(s: Seq<int>, keys: Seq<int>, n: nat)
    requires
        s.len() == WIDTH,
    ensures
        external_rounds(s, keys, n).len() == WIDTH,
        canonical(s) ==> canonical(external_rounds(s, keys, n)),
    decreases n,
{
    if n > 0 {
        lemma_external_len(s, keys, (n - 1) as nat);
    }
}

pub proof fn lemma_internal_len(s: Seq<int>, keys: Seq<int>, n: nat)
    requires
        s.len() == WIDTH,
    ensures
        internal_rounds(s, keys, n).len() == WIDTH,
        canonical(s) ==> canonical(internal_rounds(s, keys, n)),
    decreases n,
{
    if n > 0 {
        lemma_internal_len(s, keys, (n - 1) as nat);
    }
}

/// The permutation gives sixteen canonical elements, whatever it is given.
pub proof fn lemma_permutation(s: Seq<int>)
    ensures
        permutation(s).len() == WIDTH,
        canonical(permutation(s)),
{
    reveal(permutation);
    let start = external_linear(s);
    assert(canonical(start));
    lemma_external_len(start, ints(EXTERNAL_INITIAL@), HALF_EXTERNAL as nat);
    let first = external_rounds(start, ints(EXTERNAL_INITIAL@), HALF_EXTERNAL as nat);
    lemma_internal_len(first, ints(INTERNAL@), INTERNAL_ROUNDS as nat);
    let middle = internal_rounds(first, ints(INTERNAL@), INTERNAL_ROUNDS as nat);
    lemma_external_len(middle, ints(EXTERNAL_FINAL@), HALF_EXTERNAL as nat);
}

pub proof fn lemma_absorbed(s: Seq<int>, row: Seq<int>)
    requires
        s.len() == WIDTH,
    ensures
        absorbed(s, row).len() == WIDTH,
        canonical(s) ==> canonical(absorbed(s, row)),
    decreases row.len(),
{
    if row.len() > 0 && row.len() <= DIGEST {
        lemma_permutation(overwritten(s, row));
    } else if row.len() > 0 {
        let t = permutation(overwritten(s, row.take(DIGEST as int)));
        lemma_permutation(overwritten(s, row.take(DIGEST as int)));
        lemma_absorbed(t, row.skip(DIGEST as int));
    }
}

/// A digest has eight canonical elements.
pub proof fn law_digests(row: Seq<int>, left: Seq<int>, right: Seq<int>)
    ensures
        row_digest(row).len() == DIGEST && canonical(row_digest(row)),
        node(left, right).len() == DIGEST && canonical(node(left, right)),
{
    lemma_absorbed(zeros(WIDTH as nat), row);
    lemma_permutation(left + right);
}

// ---------------------------------------------------------------------------
// The permutation, run.
// ---------------------------------------------------------------------------

fn residue(x: u64) -> (r: u32)
    ensures
        r == (x as int) % (P as int),
        r < P,
{
    (x % (P as u64)) as u32
}

/// The sum of four.
fn add4(a: u32, b: u32, c: u32, d: u32) -> (r: u32)
    ensures
        r == ((a as int) + (b as int) + (c as int) + (d as int)) % (P as int),
        r < P,
{
    residue(a as u64 + b as u64 + c as u64 + d as u64)
}

/// `sum - k x`.
fn less(sum: u32, k: u64, x: u32) -> (r: u32)
    requires
        x < P,
        k <= 4,
    ensures
        r == (-(k as int) * (x as int) + sum) % (P as int),
        r < P,
{
    assert(k * x <= 4 * P && k * x >= 0 && k * (P as int) - k * x >= 0 && k * (P as int) <= 4 * P
        && -(k as int) * (x as int) == -(k * x)) by (nonlinear_arith)
        requires
            x < P,
            0 <= k <= 4,
    ;
    let t: u64 = sum as u64 + (k * (P as u64) - k * (x as u64));
    proof {
        let p = P as int;
        vstd::arithmetic::div_mod::lemma_mod_multiples_vanish(k as int, sum - k * x, p);
        assert(p * (k as int) == (k as int) * p) by (nonlinear_arith);
    }
    residue(t)
}

/// `k x + sum`.
fn more(sum: u32, k: u64, x: u32) -> (r: u32)
    requires
        k <= 4,
    ensures
        r == ((k as int) * (x as int) + sum) % (P as int),
        r < P,
{
    assert(0 <= k * x <= 4 * 0xffff_ffff) by (nonlinear_arith)
        requires
            0 <= k <= 4,
            0 <= x <= 0xffff_ffff,
    ;
    residue(k * (x as u64) + sum as u64)
}

/// The block applied to four elements.
fn mix_four(a: u32, b: u32, c: u32, d: u32) -> (r: (u32, u32, u32, u32))
    ensures
        r.0 == mix4(0, a as int, b as int, c as int, d as int),
        r.1 == mix4(1, a as int, b as int, c as int, d as int),
        r.2 == mix4(2, a as int, b as int, c as int, d as int),
        r.3 == mix4(3, a as int, b as int, c as int, d as int),
        r.0 < P && r.1 < P && r.2 < P && r.3 < P,
{
    let (a, b, c, d) = (a as u64, b as u64, c as u64, d as u64);
    let r0 = residue(2 * a + 3 * b + c + d);
    let r1 = residue(a + 2 * b + 3 * c + d);
    let r2 = residue(a + b + 2 * c + 3 * d);
    let r3 = residue(3 * a + b + c + 2 * d);
    (r0, r1, r2, r3)
}

/// The blocks of the external layer.
fn mix_blocks(state: &mut [u32; 16])
    ensures
        ints(final(state)@) == mixed(ints(old(state)@)),
        forall|i: int| 0 <= i < 16 ==> (#[trigger] final(state)@[i]) < P,
{
    let ghost s = state@;
    let mut k: usize = 0;
    while k < 16
        invariant
            k <= 16,
            k % 4 == 0,
            s.len() == 16,
            forall|i: int|
                0 <= i < k ==> (#[trigger] state@[i]) < P && state@[i] == mixed(ints(s))[i],
            forall|i: int| k <= i < 16 ==> #[trigger] state@[i] == s[i],
        decreases 16 - k,
    {
        let ghost now = state@;
        let (a, b, c, d) = (state[k], state[k + 1], state[k + 2], state[k + 3]);
        let r = mix_four(a, b, c, d);
        state[k] = r.0;
        state[k + 1] = r.1;
        state[k + 2] = r.2;
        state[k + 3] = r.3;
        proof {
            let t = k as int;
            assert(state@ =~= now.update(t, r.0).update(t + 1, r.1).update(t + 2, r.2).update(
                t + 3,
                r.3,
            ));
            assert forall|i: int| 0 <= i < k + 4 implies (#[trigger] state@[i]) < P && state@[i]
                == mixed(ints(s))[i] by {
                if i < k {
                    assert(state@[i] == now[i]);
                } else {
                    assert(i - i % 4 == t);
                    assert(a == s[t] && b == s[t + 1] && c == s[t + 2] && d == s[t + 3]);
                }
            }
            assert forall|i: int| k + 4 <= i < 16 implies #[trigger] state@[i] == s[i] by {
                assert(state@[i] == now[i]);
            }
        }
        k = k + 4;
    }
    assert(ints(state@) =~= mixed(ints(s)));
}

/// The external linear layer.
#[verifier::rlimit(40)]
fn mds_light(state: &mut [u32; 16])
    ensures
        ints(final(state)@) == external_linear(ints(old(state)@)),
        forall|i: int| 0 <= i < 16 ==> (#[trigger] final(state)@[i]) < P,
{
    let ghost s = ints(state@);
    mix_blocks(state);
    let ghost m = state@;
    let s0 = add4(state[0], state[4], state[8], state[12]);
    let s1 = add4(state[1], state[5], state[9], state[13]);
    let s2 = add4(state[2], state[6], state[10], state[14]);
    let s3 = add4(state[3], state[7], state[11], state[15]);
    let sums = [s0, s1, s2, s3];
    let mut k: usize = 0;
    while k < 16
        invariant
            k <= 16,
            ints(m) == mixed(s),
            m.len() == 16,
            sums@[0] == ((m[0] as int) + (m[4] as int) + (m[8] as int) + (m[12] as int)) % (P as int),
            sums@[1] == ((m[1] as int) + (m[5] as int) + (m[9] as int) + (m[13] as int)) % (P as int),
            sums@[2] == ((m[2] as int) + (m[6] as int) + (m[10] as int) + (m[14] as int)) % (P as int),
            sums@[3] == ((m[3] as int) + (m[7] as int) + (m[11] as int) + (m[15] as int)) % (P as int),
            forall|i: int|
                0 <= i < k ==> (#[trigger] state@[i]) < P && state@[i] == external_linear(s)[i],
            forall|i: int| k <= i < 16 ==> #[trigger] state@[i] == m[i],
        decreases 16 - k,
    {
        proof {
            let r = (k % 4) as int;
            let mi = mixed(s);
            assert(mi[r] == m[r] as int && mi[r + 4] == m[r + 4] as int && mi[r + 8] == m[r
                + 8] as int && mi[r + 12] == m[r + 12] as int && mi[k as int] == m[k as int] as int);
            let t = (m[r] as int) + (m[r + 4] as int) + (m[r + 8] as int) + (m[r + 12] as int);
            assert(sums@[r] == t % (P as int));
            vstd::arithmetic::div_mod::lemma_add_mod_noop_right(
                m[k as int] as int,
                t,
                P as int,
            );
        }
        let ghost now = state@;
        let e = field::add(state[k], sums[k % 4]);
        state[k] = e;
        proof {
            assert(e == external_linear(s)[k as int]);
            assert(state@ =~= now.update(k as int, e));
        }
        k = k + 1;
    }
    assert(ints(state@) =~= external_linear(s));
}

/// One element of the internal layer.
fn internal_entry(i: usize, x: u32, sum: u32) -> (r: u32)
    requires
        i < 16,
        x < P,
    ensures
        r == (scaled(i as int, x as int) + sum) % (P as int),
        r < P,
{
    if i == 0 {
        less(sum, 2, x)
    } else if i == 1 {
        more(sum, 1, x)
    } else if i == 2 {
        more(sum, 2, x)
    } else if i == 3 {
        more(sum, 1, field::div_2exp(x, 1))
    } else if i == 4 {
        more(sum, 3, x)
    } else if i == 5 {
        more(sum, 4, x)
    } else if i == 6 {
        less(sum, 1, field::div_2exp(x, 1))
    } else if i == 7 {
        less(sum, 3, x)
    } else if i == 8 {
        less(sum, 4, x)
    } else if i == 9 {
        more(sum, 1, field::div_2exp(x, 8))
    } else if i == 10 {
        more(sum, 1, field::div_2exp(x, 3))
    } else if i == 11 {
        more(sum, 1, field::div_2exp(x, 24))
    } else if i == 12 {
        less(sum, 1, field::div_2exp(x, 8))
    } else if i == 13 {
        less(sum, 1, field::div_2exp(x, 3))
    } else if i == 14 {
        less(sum, 1, field::div_2exp(x, 4))
    } else {
        less(sum, 1, field::div_2exp(x, 24))
    }
}

/// The internal linear layer, on canonical elements.
fn mix_internal(state: &mut [u32; 16])
    requires
        forall|i: int| 0 <= i < 16 ==> (#[trigger] old(state)@[i]) < P,
    ensures
        ints(final(state)@) == internal_linear(ints(old(state)@)),
        forall|i: int| 0 <= i < 16 ==> (#[trigger] final(state)@[i]) < P,
{
    let ghost s = ints(state@);
    let ghost w = state@;
    let mut sum: u32 = 0;
    let mut k: usize = 0;
    while k < 16
        invariant
            k <= 16,
            s == ints(state@),
            w == state@,
            sum == sum_to(s, k as nat) % (P as int),
            sum < P,
        decreases 16 - k,
    {
        sum = field::add(sum, state[k]);
        k = k + 1;
    }
    let mut n: usize = 0;
    while n < 16
        invariant
            n <= 16,
            s == ints(w),
            w.len() == 16,
            sum == sum_to(s, 16) % (P as int),
            forall|i: int| 0 <= i < 16 ==> (#[trigger] w[i]) < P,
            forall|i: int|
                0 <= i < n ==> (#[trigger] state@[i]) < P && state@[i] == internal_linear(s)[i],
            forall|i: int| n <= i < 16 ==> #[trigger] state@[i] == w[i],
        decreases 16 - n,
    {
        let ghost now = state@;
        assert(state@[n as int] == w[n as int]);
        let r = internal_entry(n, state[n], sum);
        state[n] = r;
        proof {
            let u = scaled(n as int, s[n as int]);
            let t = sum_to(s, 16);
            assert(s[n as int] == w[n as int] as int);
            vstd::arithmetic::div_mod::lemma_add_mod_noop_right(u, t, P as int);
            assert(r == internal_linear(s)[n as int]);
            assert(state@ =~= now.update(n as int, r));
        }
        n = n + 1;
    }
    assert(ints(state@) =~= internal_linear(s));
}

/// `n` external rounds.
fn run_external(state: &mut [u32; 16], keys: &[u32; 64])
    requires
        forall|i: int| 0 <= i < 16 ==> (#[trigger] old(state)@[i]) < P,
    ensures
        ints(final(state)@) == external_rounds(ints(old(state)@), ints(keys@), 4),
        forall|i: int| 0 <= i < 16 ==> (#[trigger] final(state)@[i]) < P,
{
    let ghost s = ints(state@);
    let mut n: usize = 0;
    while n < 4
        invariant
            n <= 4,
            keys@.len() == 64,
            ints(state@) == external_rounds(s, ints(keys@), n as nat),
            forall|i: int| 0 <= i < 16 ==> (#[trigger] state@[i]) < P,
        decreases 4 - n,
    {
        let ghost before = ints(state@);
        let ghost key = ints(keys@).subrange(16 * n, 16 * n + 16);
        let mut k: usize = 0;
        while k < 16
            invariant
                k <= 16,
                n < 4,
                before.len() == 16,
                key == ints(keys@).subrange(16 * n, 16 * n + 16),
                keys@.len() == 64,
                forall|i: int|
                    0 <= i < k ==> (#[trigger] state@[i]) < P && state@[i] == keyed(before, key)[i],
                forall|i: int| k <= i < 16 ==> (#[trigger] state@[i]) as int == before[i],
            decreases 16 - k,
        {
            assert(key[k as int] == keys@[16 * n + k] as int);
            state[k] = field::sbox(field::add(state[k], keys[16 * n + k]));
            k = k + 1;
        }
        assert(ints(state@) =~= keyed(before, key));
        mds_light(state);
        n = n + 1;
    }
}

/// The internal rounds.
fn run_internal(state: &mut [u32; 16])
    requires
        forall|i: int| 0 <= i < 16 ==> (#[trigger] old(state)@[i]) < P,
    ensures
        ints(final(state)@) == internal_rounds(ints(old(state)@), ints(INTERNAL@), 20),
        forall|i: int| 0 <= i < 16 ==> (#[trigger] final(state)@[i]) < P,
{
    let ghost s = ints(state@);
    let keys = INTERNAL;
    let mut n: usize = 0;
    while n < 20
        invariant
            n <= 20,
            keys@ == INTERNAL@,
            keys@.len() == 20,
            ints(state@) == internal_rounds(s, ints(INTERNAL@), n as nat),
            forall|i: int| 0 <= i < 16 ==> (#[trigger] state@[i]) < P,
        decreases 20 - n,
    {
        let ghost before = ints(state@);
        assert(ints(keys@)[n as int] == keys@[n as int] as int);
        state[0] = field::sbox(field::add(state[0], keys[n]));
        assert(ints(state@) =~= before.update(
            0,
            field::cube(field::plus(before[0], ints(keys@)[n as int])),
        ));
        mix_internal(state);
        n = n + 1;
    }
}

/// The permutation, in place.
pub fn permute(state: &mut [u32; 16])
    ensures
        ints(final(state)@) == permutation(ints(old(state)@)),
        forall|i: int| 0 <= i < 16 ==> (#[trigger] final(state)@[i]) < P,
{
    proof {
        reveal(permutation);
    }
    mds_light(state);
    let initial = EXTERNAL_INITIAL;
    run_external(state, &initial);
    run_internal(state);
    let last = EXTERNAL_FINAL;
    run_external(state, &last);
}

/// The first eight elements of a state.
pub(crate) fn rate_of(state: &[u32; 16]) -> (d: [u32; 8])
    ensures
        ints(d@) == ints(state@).take(8),
        d@ == state@.take(8),
{
    let d = [
        state[0],
        state[1],
        state[2],
        state[3],
        state[4],
        state[5],
        state[6],
        state[7],
    ];
    assert(d@ =~= state@.take(8));
    assert(ints(d@) =~= ints(state@).take(8));
    d
}

/// The digest of a row: the padding-free sponge of rate eight.
pub fn hash_row(row: &[u32]) -> (d: [u32; 8])
    ensures
        ints(d@) == row_digest(ints(row@)),
{
    let mut state: [u32; 16] = [0; 16];
    let ghost all = ints(row@);
    assert(ints(state@) =~= zeros(16));
    assert(all.skip(0) =~= all);
    let n = row.len();
    let mut at: usize = 0;
    while at < n
        invariant
            at <= n,
            n == row@.len(),
            all == ints(row@),
            absorbed(ints(state@), all.skip(at as int)) == absorbed(zeros(16), all),
        decreases n - at,
    {
        let left = n - at;
        let take: usize = if left < 8 {
            left
        } else {
            8
        };
        let ghost rest = all.skip(at as int);
        let ghost before = ints(state@);
        let mut k: usize = 0;
        while k < take
            invariant
                k <= take <= 8,
                at + take <= n,
                n == row@.len(),
                all == ints(row@),
                rest == all.skip(at as int),
                before.len() == 16,
                ints(state@) == overwritten(before, rest.take(k as int)),
            decreases take - k,
        {
            let ghost now = ints(state@);
            state[k] = row[at + k];
            proof {
                assert(rest[k as int] == row@[at + k] as int);
                assert forall|i: int| 0 <= i < 16 implies ints(state@)[i] == overwritten(
                    before,
                    rest.take(k + 1),
                )[i] by {
                    if i != k {
                        assert(now[i] == overwritten(before, rest.take(k as int))[i]);
                        assert(ints(state@)[i] == now[i]);
                    }
                }
                assert(ints(state@) =~= overwritten(before, rest.take(k + 1)));
            }
            k = k + 1;
        }
        permute(&mut state);
        proof {
            if left <= 8 {
                assert(rest.take(take as int) =~= rest);
                assert(all.skip(n as int) =~= Seq::<int>::empty());
            } else {
                assert(rest.skip(8) =~= all.skip(at + 8));
            }
        }
        at = at + take;
    }
    proof {
        assert(all.skip(n as int) =~= Seq::<int>::empty());
    }
    rate_of(&state)
}

/// The digest of two children: both as the state, permuted, the first half.
pub fn compress(left: &[u32; 8], right: &[u32; 8]) -> (d: [u32; 8])
    ensures
        ints(d@) == node(ints(left@), ints(right@)),
{
    let mut state: [u32; 16] = [
        left[0],
        left[1],
        left[2],
        left[3],
        left[4],
        left[5],
        left[6],
        left[7],
        right[0],
        right[1],
        right[2],
        right[3],
        right[4],
        right[5],
        right[6],
        right[7],
    ];
    assert(ints(state@) =~= ints(left@) + ints(right@));
    permute(&mut state);
    rate_of(&state)
}

/// The digest a path climbs to: at each level the bit says whether the node is
/// the right child.
pub open spec fn rooted(leaf: Seq<int>, siblings: Seq<Seq<int>>, bits: Seq<bool>, level: nat) -> Seq<
    int,
>
    decreases level,
{
    if level == 0 {
        leaf
    } else {
        let cur = rooted(leaf, siblings, bits, (level - 1) as nat);
        if bits[level - 1] {
            node(siblings[level - 1], cur)
        } else {
            node(cur, siblings[level - 1])
        }
    }
}

/// A list of digests.
pub open spec fn digests(ds: Seq<[u32; 8]>) -> Seq<Seq<int>> {
    Seq::new(ds.len(), |i: int| ints(ds[i]@))
}

/// The root that a leaf reaches along its siblings, level 0 first; `bits` are the
/// directions, set where the node is a right child.
pub fn merkle_root(leaf: [u32; 8], siblings: &[[u32; 8]], bits: &[bool]) -> (root: [u32; 8])
    requires
        bits@.len() == siblings@.len(),
    ensures
        ints(root@) == rooted(
            ints(leaf@),
            digests(siblings@),
            bits@,
            siblings@.len(),
        ),
{
    let ghost sibs = digests(siblings@);
    let mut cur = leaf;
    let mut level: usize = 0;
    while level < siblings.len()
        invariant
            level <= siblings@.len(),
            bits@.len() == siblings@.len(),
            sibs == digests(siblings@),
            ints(cur@) == rooted(ints(leaf@), sibs, bits@, level as nat),
        decreases siblings@.len() - level,
    {
        let sib = siblings[level];
        cur = if bits[level] {
            compress(&sib, &cur)
        } else {
            compress(&cur, &sib)
        };
        level = level + 1;
    }
    cur
}

} // verus!

//! The WHIR verifier over `GF(2^128)` on the additive Cantor domain, in plain
//! code: the transcript, then the arithmetic.
//!
//! # The transcript
//!
//! Everything is bytes. An observe clears the challenger's output buffer and
//! appends to its input; a sample refills, when the output is empty, by hashing
//! the whole input buffer, replacing the input with that digest, then pops
//! bytes from the *end* of the digest. A field element is 16 bytes
//! little-endian; a query index is 8 bytes read as a little-endian number and
//! masked; a grinding check observes the 16-byte witness then requires `bits`
//! sampled bits to be zero. Every sub-transcript seeds the sponge with its
//! domain separator, a constant of the configuration taken here as data.
//!
//! # The arithmetic
//!
//! Folds use the previous folding randomness *reversed*, the final value is
//! the final polynomial at the final sumcheck randomness reversed, and a
//! constraint of arity `n` reads the *first* `n` coordinates of the reversed
//! total randomness. A query index `i` becomes the domain point
//! `x = sum of cantor_basis(r) over the set bits of i` and the multilinear
//! point `(S_{n-1}(x), ..., S_0(x))` with `S_j(x)` the `j`-fold iterate of
//! `v -> v^2 + v`. The commitment's claims are batched by `alpha` from
//! `alpha^0`; a round's constraint is batched by `gamma` from `gamma^1`.
use super::bytes;
use super::field;
use super::hash;
use super::protocol;
use super::protocol::{Buffers, Draws, Machine, ProofM, RoundDraws, RoundM, SumcheckM};
use super::pruned;
use super::pruned::{compress, Blake3Tree, Digest};
use crate::merkle;
use vstd::arithmetic::power2::pow2;
use vstd::prelude::*;

pub use super::field::F;

verus! {

/// The models of a list of elements.
pub open spec fn elts(v: Seq<F>) -> Seq<field::Elt> {
    Seq::new(v.len(), |i: int| v[i]@)
}

/// The models of a list of lists of elements.
pub open spec fn elts2(v: Seq<Vec<F>>) -> Seq<Seq<field::Elt>> {
    Seq::new(v.len(), |i: int| elts(v[i]@))
}

pub open spec fn byte_lists(v: Seq<Vec<u8>>) -> Seq<Seq<u8>> {
    Seq::new(v.len(), |i: int| v[i]@)
}

pub open spec fn nats(v: Seq<usize>) -> Seq<nat> {
    Seq::new(v.len(), |i: int| v[i] as nat)
}

/// What the transcript needs of a challenger: bytes in, bytes out.
pub trait Sponge: Sized {
    /// The state that the draws depend on.
    type St;

    spec fn st(&self) -> Self::St;

    /// How the state changes.
    spec fn machine() -> Machine<Self::St>;

    fn observe(&mut self, byte: u8)
        ensures
            final(self).st() == (Self::machine().absorb)(old(self).st(), byte),
    ;

    fn sample(&mut self) -> (byte: u8)
        ensures
            (final(self).st(), byte) == (Self::machine().draw)(old(self).st()),
    ;

    fn observe_bytes(&mut self, bytes: &[u8])
        ensures
            final(self).st() == protocol::absorb_all(Self::machine(), old(self).st(), bytes@),
    {
        let mut i: usize = 0;
        let ghost first = self.st();
        assert(bytes@.take(0) =~= Seq::<u8>::empty());
        while i < bytes.len()
            invariant
                i <= bytes@.len(),
                self.st() == protocol::absorb_all(Self::machine(), first, bytes@.take(i as int)),
            decreases bytes@.len() - i,
        {
            self.observe(bytes[i]);
            assert(bytes@.take(i + 1).drop_last() =~= bytes@.take(i as int));
            i = i + 1;
        }
        assert(bytes@.take(i as int) =~= bytes@);
    }

    fn sample_bytes(&mut self, n: usize) -> (bytes: Vec<u8>)
        ensures
            (final(self).st(), bytes@) == protocol::draw_all(
                Self::machine(),
                old(self).st(),
                n as nat,
            ),
            bytes@.len() == n,
    {
        let mut bytes: Vec<u8> = Vec::new();
        let ghost first = self.st();
        while bytes.len() < n
            invariant
                bytes@.len() <= n,
                (self.st(), bytes@) == protocol::draw_all(Self::machine(), first, bytes@.len()),
            decreases n - bytes@.len(),
        {
            let b = self.sample();
            bytes.push(b);
        }
        bytes
    }

    /// An element: 16 little-endian bytes.
    fn observe_elem(&mut self, x: F)
        ensures
            final(self).st() == protocol::absorb_elt(Self::machine(), old(self).st(), x@),
    {
        let b = bytes::elem_bytes(x);
        self.observe_bytes(b.as_slice());
    }

    /// An element: 16 bytes, little-endian.
    fn sample_elem(&mut self) -> (x: F)
        ensures
            (final(self).st(), x@) == protocol::draw_elt(Self::machine(), old(self).st()),
    {
        let b = self.sample_bytes(16);
        bytes::elem_of_bytes(b.as_slice())
    }

    /// 8 bytes as a little-endian number, masked.
    fn sample_bits(&mut self, bits: usize) -> (v: usize)
        requires
            bits < 64,
            bits < usize::BITS,
        ensures
            final(self).st() == protocol::draw_low(
                Self::machine(),
                old(self).st(),
                bits as nat,
            ).0,
            v == bytes::nat_of(
                protocol::draw_low(Self::machine(), old(self).st(), bits as nat).1,
            ),
            v < pow2(bits as nat),
    {
        let b = self.sample_bytes(8);
        bytes::low_bits(b.as_slice(), bits)
    }

    /// Absorb the witness, then `bits` sampled bits must be zero.
    fn check_witness(&mut self, bits: usize, witness: F) -> (ok: bool)
        requires
            bits < 64,
            bits < usize::BITS,
        ensures
            (final(self).st(), ok) == protocol::check_witness(
                Self::machine(),
                old(self).st(),
                bits as nat,
                witness@,
            ),
    {
        if bits == 0 {
            return true;
        }
        self.observe_elem(witness);
        self.sample_bits(bits) == 0
    }
}

/// The Blake3 hash challenger, from an empty initial state.
#[derive(Clone, Debug)]
pub struct Challenger {
    input: Vec<u8>,
    output: Vec<u8>,
    /// One entry per hashing of the input.
    flushed: Vec<()>,
}

impl Default for Challenger {
    fn default() -> (c: Self)
        ensures
            c.st() == protocol::empty_buffers(),
    {
        let c = Challenger { input: Vec::new(), output: Vec::new(), flushed: Vec::new() };
        assert(c.input@ =~= Seq::<u8>::empty());
        assert(c.output@ =~= Seq::<u8>::empty());
        c
    }
}

/// The hash of the transcript and of the trees.
pub open spec fn blake3() -> protocol::ByteHash {
    |b: Seq<u8>| hash::digest(b)
}

impl Challenger {
    pub fn new() -> (c: Self)
        ensures
            c.st() == protocol::empty_buffers(),
    {
        Challenger::default()
    }

    /// The number of times the input was hashed.
    pub fn flushes(&self) -> (n: usize)
        ensures
            n == self.st().flushes,
    {
        self.flushed.len()
    }

    /// The buffers: what the next refill hashes, and what is left to draw.
    pub fn buffers(&self) -> (r: (&[u8], &[u8]))
        ensures
            r.0@ == self.st().input,
            r.1@ == self.st().output,
    {
        (self.input.as_slice(), self.output.as_slice())
    }
}

/// The bytes of an array.
pub(crate) fn array_to_vec(d: &[u8; 32]) -> (r: Vec<u8>)
    ensures
        r@ == d@,
{
    let mut r: Vec<u8> = Vec::new();
    while r.len() < 32
        invariant
            r@.len() <= 32,
            r@ == d@.take(r@.len() as int),
        decreases 32 - r@.len(),
    {
        let k = r.len();
        r.push(d[k]);
        assert(d@.take(k + 1) =~= d@.take(k as int).push(d@[k as int]));
    }
    assert(d@.take(32) =~= d@);
    r
}

impl Sponge for Challenger {
    type St = Buffers;

    closed spec fn st(&self) -> Buffers {
        Buffers {
            input: self.input@,
            output: self.output@,
            flushes: self.flushed@.len(),
        }
    }

    open spec fn machine() -> Machine<Buffers> {
        protocol::hash_machine(blake3())
    }

    fn observe(&mut self, byte: u8) {
        self.output.clear();
        self.input.push(byte);
    }

    fn sample(&mut self) -> u8 {
        if self.output.len() == 0 {
            let digest = hash::blake3_digest(self.input.as_slice());
            self.flushed.push(());
            self.input = array_to_vec(&digest);
            self.output = array_to_vec(&digest);
        }
        let r = self.output.pop();
        r.unwrap()
    }
}

/// One intermediate round's public parameters.
#[derive(Clone, Debug)]
pub struct RoundConfig {
    pub ood_samples: usize,
    pub pow_bits: usize,
    pub num_queries: usize,
    /// log2 of the folded domain the queries index.
    pub index_width: usize,
    /// Variables of the polynomial this round commits to.
    pub num_variables: usize,
    /// Sumcheck rounds after this round's commitment.
    pub folding: usize,
    pub folding_pow_bits: usize,
}

/// A claim's shape: the row point's arity and, per opening, the column
/// selector's coordinates that *prefix* it.
#[derive(Clone, Debug)]
pub struct ClaimShape {
    pub row_vars: usize,
    pub selectors: Vec<Vec<F>>,
}

#[derive(Clone, Debug)]
pub struct Config {
    pub num_variables: usize,
    pub commitment_ood_samples: usize,
    pub claims: Vec<ClaimShape>,
    /// The claims' points come from the layer in front of the opening instead
    /// of the transcript.
    pub given_points: bool,
    pub initial_folding: usize,
    pub initial_folding_pow_bits: usize,
    pub rounds: Vec<RoundConfig>,
    pub final_pow_bits: usize,
    pub final_queries: usize,
    pub final_index_width: usize,
    pub final_sumcheck_rounds: usize,
    pub final_folding_pow_bits: usize,
}

#[derive(Clone, Debug)]
pub struct SumcheckRoundData {
    pub poly: [F; 2],
    pub pow_witness: F,
}

/// A commitment opened at the transcript's queries.
#[derive(Clone, Debug)]
pub struct Opening {
    /// Per query in draw order, the row.
    pub rows: Vec<Vec<F>>,
    pub boundaries: Vec<Digest>,
}

#[derive(Clone, Debug)]
pub struct RoundData {
    /// The Merkle cap, every root's 32 bytes in order.
    pub cap: Vec<u8>,
    pub ood_answers: Vec<F>,
    pub pow_witness: F,
    pub seed_sumcheck: Vec<u8>,
    pub sumcheck: Vec<SumcheckRoundData>,
    /// The *previous* commitment's opening at this round's queries.
    pub opening: Opening,
}

#[derive(Clone, Debug)]
pub struct Data {
    pub seed_commitment: Vec<u8>,
    pub seed_virtual: Vec<Vec<u8>>,
    pub seed_claim: Vec<Vec<u8>>,
    /// The WHIR seed and the batching seed together: one block in the transcript.
    pub seed_whir_batching: Vec<u8>,
    pub seed_initial_sumcheck: Vec<u8>,
    pub seed_final_sumcheck: Vec<u8>,
    pub cap: Vec<u8>,
    pub initial_ood_answers: Vec<F>,
    pub openings: Vec<Vec<F>>,
    pub initial_sumcheck: Vec<SumcheckRoundData>,
    pub rounds: Vec<RoundData>,
    pub final_poly: Vec<F>,
    pub final_pow_witness: F,
    pub final_sumcheck: Vec<SumcheckRoundData>,
    pub final_opening: Opening,
}

pub open spec fn sumcheck_messages(v: Seq<SumcheckRoundData>) -> Seq<SumcheckM> {
    Seq::new(
        v.len(),
        |i: int|
            SumcheckM { c0: v[i].poly@[0]@, c_inf: v[i].poly@[1]@, witness: v[i].pow_witness@ },
    )
}

impl RoundData {
    /// The round's messages.
    pub open spec fn messages(self) -> RoundM {
        RoundM {
            cap: self.cap@,
            ood_answers: elts(self.ood_answers@),
            pow_witness: self.pow_witness@,
            seed_sumcheck: self.seed_sumcheck@,
            sumcheck: sumcheck_messages(self.sumcheck@),
            rows: elts2(self.opening.rows@),
        }
    }
}

impl Data {
    /// The proof's messages.
    pub open spec fn messages(self) -> ProofM {
        ProofM {
            seed_commitment: self.seed_commitment@,
            seed_virtual: byte_lists(self.seed_virtual@),
            seed_claim: byte_lists(self.seed_claim@),
            seed_whir_batching: self.seed_whir_batching@,
            seed_initial_sumcheck: self.seed_initial_sumcheck@,
            seed_final_sumcheck: self.seed_final_sumcheck@,
            cap: self.cap@,
            initial_ood_answers: elts(self.initial_ood_answers@),
            openings: elts2(self.openings@),
            initial_sumcheck: sumcheck_messages(self.initial_sumcheck@),
            rounds: Seq::new(self.rounds@.len(), |i: int| self.rounds@[i].messages()),
            final_poly: elts(self.final_poly@),
            final_pow_witness: self.final_pow_witness@,
            final_sumcheck: sumcheck_messages(self.final_sumcheck@),
            final_rows: elts2(self.final_opening.rows@),
        }
    }
}

#[derive(Clone, Debug, PartialEq, Eq)]
pub struct RoundChallenges {
    pub ood_points: Vec<F>,
    pub queries: Vec<usize>,
    pub combination: F,
    pub folding: Vec<F>,
}

#[derive(Clone, Debug, PartialEq, Eq)]
pub struct Challenges {
    pub initial_ood_points: Vec<F>,
    pub opening_points: Vec<F>,
    pub alpha: F,
    pub initial_folding: Vec<F>,
    pub rounds: Vec<RoundChallenges>,
    pub final_queries: Vec<usize>,
    pub final_folding: Vec<F>,
    pub pow_ok: bool,
}

impl RoundChallenges {
    pub open spec fn draws(self) -> RoundDraws {
        RoundDraws {
            ood_points: elts(self.ood_points@),
            queries: nats(self.queries@),
            combination: self.combination@,
            folding: elts(self.folding@),
        }
    }
}

impl Challenges {
    /// What was drawn.
    pub open spec fn draws(self) -> Draws {
        Draws {
            initial_ood_points: elts(self.initial_ood_points@),
            opening_points: elts(self.opening_points@),
            alpha: self.alpha@,
            initial_folding: elts(self.initial_folding@),
            rounds: Seq::new(self.rounds@.len(), |i: int| self.rounds@[i].draws()),
            final_queries: nats(self.final_queries@),
            final_folding: elts(self.final_folding@),
            pow_ok: self.pow_ok,
        }
    }
}

// ---------------------------------------------------------------------------
// The queries.
// ---------------------------------------------------------------------------

/// `2^k`.
pub(crate) fn two_to(k: usize) -> (p: usize)
    requires
        k < usize::BITS,
    ensures
        p == pow2(k as nat),
        p >= 1,
{
    proof {
        vstd::arithmetic::power2::lemma2_to64();
        vstd::layout::unsigned_int_max_values();
    }
    let mut p: usize = 1;
    let mut i: usize = 0;
    while i < k
        invariant
            i <= k < usize::BITS,
            usize::MAX == pow2(usize::BITS as nat) - 1,
            p == pow2(i as nat),
        decreases k - i,
    {
        proof {
            vstd::arithmetic::power2::lemma_pow2_unfold((i + 1) as nat);
            vstd::arithmetic::power2::lemma_pow2_strictly_increases(
                (i + 1) as nat,
                usize::BITS as nat,
            );
        }
        p = p * 2;
        i = i + 1;
    }
    proof {
        vstd::arithmetic::power2::lemma_pow2_pos(k as nat);
    }
    p
}

/// The greatest `d` with `2^d <= n`.
pub(crate) fn floor_log2(n: usize) -> (d: usize)
    requires
        n > 0,
    ensures
        d == protocol::log2(n as nat),
        d < usize::BITS,
        pow2(d as nat) <= n < pow2((d + 1) as nat),
{
    let mut v: usize = n;
    let mut d: usize = 0;
    while v > 1
        invariant
            1 <= v,
            d + protocol::log2(v as nat) == protocol::log2(n as nat),
            d + v <= n,
        decreases v,
    {
        v = v / 2;
        d = d + 1;
    }
    proof {
        protocol::lemma_log2(n as nat);
        vstd::layout::unsigned_int_max_values();
        if d >= usize::BITS {
            if d > usize::BITS {
                vstd::arithmetic::power2::lemma_pow2_strictly_increases(
                    usize::BITS as nat,
                    d as nat,
                );
            }
        }
    }
    d
}

/// Draws spent on the queries: none when every position is opened.
pub fn query_draws(index_width: usize, num_queries: usize) -> (n: usize)
    requires
        index_width < usize::BITS,
    ensures
        n == protocol::query_draws(index_width as nat, num_queries as nat),
{
    if num_queries >= two_to(index_width) {
        0
    } else {
        num_queries
    }
}

/// One stratum partition per set bit of the count, deepest first.
pub fn summand_depths(draws: usize) -> (out: Vec<usize>)
    ensures
        nats(out@) == protocol::summand_depths(draws as nat),
        forall|i: int|
            0 <= i < out@.len() ==> (#[trigger] out@[i]) < usize::BITS && pow2(out@[i] as nat)
                <= draws,
{
    let mut remaining: usize = draws;
    let mut out: Vec<usize> = Vec::new();
    proof {
        assert(nats(out@) + protocol::summand_depths(draws as nat) =~= protocol::summand_depths(
            draws as nat,
        ));
    }
    while remaining != 0
        invariant
            remaining <= draws,
            protocol::summand_depths(draws as nat) == nats(out@) + protocol::summand_depths(
                remaining as nat,
            ),
            forall|i: int|
                0 <= i < out@.len() ==> (#[trigger] out@[i]) < usize::BITS && pow2(out@[i] as nat)
                    <= draws,
        decreases remaining,
    {
        let ghost before = nats(out@);
        let depth = floor_log2(remaining);
        out.push(depth);
        proof {
            vstd::arithmetic::power2::lemma_pow2_pos(depth as nat);
            assert(nats(out@) =~= before.push(depth as nat));
            let rest = protocol::summand_depths((remaining - pow2(depth as nat)) as nat);
            assert(protocol::summand_depths(remaining as nat) == seq![depth as nat] + rest);
            assert(before + (seq![depth as nat] + rest) =~= before.push(depth as nat) + rest);
        }
        remaining = remaining - two_to(depth);
    }
    proof {
        assert(nats(out@) + protocol::summand_depths(0) =~= nats(out@));
    }
    out
}

/// Stratified queries: per stratum partition of depth `d`, `2^d` draws of
/// `width - d` bits, index `(stratum << (width - d)) | low`.
pub fn stir_queries<S: Sponge>(s: &mut S, index_width: usize, num_queries: usize) -> (out: Vec<
    usize,
>)
    requires
        index_width < 64,
        index_width < usize::BITS,
    ensures
        (final(s).st(), nats(out@)) == protocol::stir_queries(
            S::machine(),
            old(s).st(),
            index_width as nat,
            num_queries as nat,
        ),
        forall|i: int| 0 <= i < out@.len() ==> (#[trigger] out@[i]) < pow2(index_width as nat),
{
    let ghost m = S::machine();
    let ghost first = s.st();
    let ghost width = index_width as nat;
    let draws = query_draws(index_width, num_queries);
    let mut out: Vec<usize> = Vec::new();
    if draws == 0 {
        let n = two_to(index_width);
        while out.len() < n
            invariant
                out@.len() <= n,
                forall|i: int| 0 <= i < out@.len() ==> #[trigger] out@[i] == i,
            decreases n - out@.len(),
        {
            let k = out.len();
            out.push(k);
        }
        assert(nats(out@) =~= Seq::new(pow2(width), |i: int| i as nat));
        return out;
    }
    let depths = summand_depths(draws);
    let ghost ds = nats(depths@);
    let mut k: usize = 0;
    proof {
        assert(ds.take(0) =~= Seq::<nat>::empty());
        assert(nats(out@) =~= Seq::<nat>::empty());
    }
    while k < depths.len()
        invariant
            k <= depths@.len(),
            m == S::machine(),
            width == index_width,
            index_width < 64,
            index_width < usize::BITS,
            draws < pow2(width),
            ds == nats(depths@),
            forall|i: int|
                0 <= i < depths@.len() ==> (#[trigger] depths@[i]) < usize::BITS && pow2(
                    depths@[i] as nat,
                ) <= draws,
            (s.st(), nats(out@)) == protocol::partitions(m, first, width, ds.take(k as int)),
            forall|i: int| 0 <= i < out@.len() ==> (#[trigger] out@[i]) < pow2(width),
        decreases depths@.len() - k,
    {
        let depth = depths[k];
        proof {
            if depth >= index_width {
                if depth > index_width {
                    vstd::arithmetic::power2::lemma_pow2_strictly_increases(width, depth as nat);
                }
                assert(false);
            }
            vstd::arithmetic::power2::lemma_pow2_adds((width - depth) as nat, depth as nat);
            vstd::layout::unsigned_int_max_values();
            vstd::arithmetic::power2::lemma_pow2_strictly_increases(width, usize::BITS as nat);
        }
        let low_width = index_width - depth;
        let count = two_to(depth);
        let scale = two_to(low_width);
        let ghost start = s.st();
        let ghost earlier = nats(out@);
        let mut stratum: usize = 0;
        proof {
            assert(earlier + Seq::<nat>::empty() =~= earlier);
        }
        while stratum < count
            invariant
                stratum <= count,
                m == S::machine(),
                width == index_width,
                index_width < 64,
                index_width < usize::BITS,
                low_width == width - depth,
                depth < width,
                count == pow2(depth as nat),
                scale == pow2(low_width as nat),
                scale * count == pow2(width),
                pow2(width) <= usize::MAX,
                s.st() == protocol::strata(m, start, width, depth as nat, stratum as nat).0,
                nats(out@) == earlier + protocol::strata(
                    m,
                    start,
                    width,
                    depth as nat,
                    stratum as nat,
                ).1,
                forall|i: int| 0 <= i < out@.len() ==> (#[trigger] out@[i]) < pow2(width),
            decreases count - stratum,
        {
            let ghost before = nats(out@);
            let low = s.sample_bits(low_width);
            proof {
                assert(stratum * scale + low < (stratum + 1) * scale) by (nonlinear_arith)
                    requires
                        low < scale,
                ;
                assert((stratum + 1) * scale <= count * scale) by (nonlinear_arith)
                    requires
                        stratum + 1 <= count,
                ;
                assert(count * scale == scale * count) by (nonlinear_arith);
                assert(0 <= stratum * scale) by (nonlinear_arith);
            }
            out.push(stratum * scale + low);
            proof {
                let next = protocol::strata(m, start, width, depth as nat, (stratum + 1) as nat).1;
                assert(nats(out@) =~= before.push((stratum * scale + low) as nat));
                assert(before.push((stratum * scale + low) as nat) =~= earlier + next);
            }
            stratum = stratum + 1;
        }
        proof {
            assert(ds.take(k + 1).drop_last() =~= ds.take(k as int));
            assert(ds.take(k + 1).last() == depth as nat);
        }
        k = k + 1;
    }
    assert(ds.take(k as int) =~= ds);
    out
}

// ---------------------------------------------------------------------------
// The transcript.
// ---------------------------------------------------------------------------

/// A number of bits that one eight-byte draw can give.
pub open spec fn narrow(bits: usize) -> bool {
    bits < 64 && bits < usize::BITS
}

pub open spec fn round_transcribable(rc: RoundConfig, rd: RoundData) -> bool {
    &&& rd.ood_answers@.len() == rc.ood_samples
    &&& rd.sumcheck@.len() == rc.folding
    &&& narrow(rc.pow_bits)
    &&& narrow(rc.index_width)
    &&& narrow(rc.folding_pow_bits)
}

/// The proof has the number of messages that the configuration asks for.
pub open spec fn transcribable(cfg: Config, d: Data) -> bool {
    &&& d.initial_ood_answers@.len() == cfg.commitment_ood_samples
    &&& d.seed_virtual@.len() == cfg.commitment_ood_samples
    &&& d.seed_claim@.len() == d.openings@.len()
    &&& d.initial_sumcheck@.len() == cfg.initial_folding
    &&& narrow(cfg.initial_folding_pow_bits)
    &&& d.rounds@.len() == cfg.rounds@.len()
    &&& forall|i: int|
        0 <= i < d.rounds@.len() ==> round_transcribable(
            #[trigger] cfg.rounds@[i],
            #[trigger] d.rounds@[i],
        )
    &&& narrow(cfg.final_pow_bits)
    &&& narrow(cfg.final_index_width)
    &&& d.final_sumcheck@.len() == cfg.final_sumcheck_rounds
    &&& narrow(cfg.final_folding_pow_bits)
}

fn sumcheck_rounds<S: Sponge>(s: &mut S, rounds: &[SumcheckRoundData], pow_bits: usize) -> (r: (
    Vec<F>,
    bool,
))
    requires
        narrow(pow_bits),
    ensures
        (final(s).st(), elts(r.0@), r.1) == protocol::sumcheck_draws(
            S::machine(),
            old(s).st(),
            sumcheck_messages(rounds@),
            pow_bits as nat,
        ),
        r.0@.len() == rounds@.len(),
{
    let ghost m = S::machine();
    let ghost first = s.st();
    let ghost msgs = sumcheck_messages(rounds@);
    let mut ok = true;
    let mut out: Vec<F> = Vec::new();
    proof {
        assert(msgs.take(0) =~= Seq::<SumcheckM>::empty());
        assert(elts(out@) =~= Seq::<field::Elt>::empty());
    }
    while out.len() < rounds.len()
        invariant
            narrow(pow_bits),
            m == S::machine(),
            msgs == sumcheck_messages(rounds@),
            out@.len() <= rounds@.len(),
            (s.st(), elts(out@), ok) == protocol::sumcheck_draws(
                m,
                first,
                msgs.take(out@.len() as int),
                pow_bits as nat,
            ),
        decreases rounds@.len() - out@.len(),
    {
        let k = out.len();
        let ghost before = elts(out@);
        proof {
            assert(msgs.take(k + 1).drop_last() =~= msgs.take(k as int));
        }
        s.observe_elem(rounds[k].poly[0]);
        s.observe_elem(rounds[k].poly[1]);
        let ground = s.check_witness(pow_bits, rounds[k].pow_witness);
        ok = ok && ground;
        let x = s.sample_elem();
        out.push(x);
        assert(elts(out@) =~= before.push(x@));
    }
    assert(msgs.take(msgs.len() as int) =~= msgs);
    (out, ok)
}

pub(crate) fn observe_elems<S: Sponge>(s: &mut S, xs: &[F])
    ensures
        final(s).st() == protocol::absorb_elts(S::machine(), old(s).st(), elts(xs@)),
{
    let ghost first = s.st();
    let ghost all = elts(xs@);
    let mut i: usize = 0;
    assert(all.take(0) =~= Seq::<field::Elt>::empty());
    while i < xs.len()
        invariant
            i <= xs@.len(),
            all == elts(xs@),
            s.st() == protocol::absorb_elts(S::machine(), first, all.take(i as int)),
        decreases xs@.len() - i,
    {
        s.observe_elem(xs[i]);
        assert(all.take(i + 1).drop_last() =~= all.take(i as int));
        i = i + 1;
    }
    assert(all.take(i as int) =~= all);
}

/// Absorb the commitment: its seed and its cap.
pub fn absorb_commitment<S: Sponge>(d: &Data, s: &mut S)
    ensures
        final(s).st() == protocol::absorb_commitment(S::machine(), old(s).st(), d.messages()),
{
    s.observe_bytes(d.seed_commitment.as_slice());
    s.observe_bytes(d.cap.as_slice());
}

fn virtual_points<S: Sponge>(d: &Data, s: &mut S) -> (out: Vec<F>)
    requires
        d.seed_virtual@.len() == d.initial_ood_answers@.len(),
    ensures
        (final(s).st(), elts(out@)) == protocol::virtual_draws(
            S::machine(),
            old(s).st(),
            elts(d.initial_ood_answers@),
            byte_lists(d.seed_virtual@),
        ),
        out@.len() == d.initial_ood_answers@.len(),
{
    let ghost first = s.st();
    let ghost answers = elts(d.initial_ood_answers@);
    let ghost seeds = byte_lists(d.seed_virtual@);
    let mut out: Vec<F> = Vec::new();
    proof {
        assert(answers.take(0) =~= Seq::<field::Elt>::empty());
        assert(elts(out@) =~= Seq::<field::Elt>::empty());
    }
    while out.len() < d.initial_ood_answers.len()
        invariant
            d.seed_virtual@.len() == d.initial_ood_answers@.len(),
            answers == elts(d.initial_ood_answers@),
            seeds == byte_lists(d.seed_virtual@),
            out@.len() <= d.initial_ood_answers@.len(),
            (s.st(), elts(out@)) == protocol::virtual_draws(
                S::machine(),
                first,
                answers.take(out@.len() as int),
                seeds,
            ),
        decreases d.initial_ood_answers@.len() - out@.len(),
    {
        let k = out.len();
        let ghost before = elts(out@);
        assert(answers.take(k + 1).drop_last() =~= answers.take(k as int));
        s.observe_bytes(d.seed_virtual[k].as_slice());
        let x = s.sample_elem();
        s.observe_elem(d.initial_ood_answers[k]);
        out.push(x);
        assert(elts(out@) =~= before.push(x@));
    }
    assert(answers.take(answers.len() as int) =~= answers);
    out
}

fn claim_points<S: Sponge>(d: &Data, given: bool, s: &mut S) -> (out: Vec<F>)
    requires
        d.seed_claim@.len() == d.openings@.len(),
    ensures
        (final(s).st(), elts(out@)) == protocol::claim_draws(
            S::machine(),
            old(s).st(),
            elts2(d.openings@),
            byte_lists(d.seed_claim@),
            given,
        ),
        out@.len() == d.openings@.len(),
{
    let ghost first = s.st();
    let ghost claims = elts2(d.openings@);
    let ghost seeds = byte_lists(d.seed_claim@);
    let mut out: Vec<F> = Vec::new();
    proof {
        assert(claims.take(0) =~= Seq::<Seq<field::Elt>>::empty());
        assert(elts(out@) =~= Seq::<field::Elt>::empty());
    }
    while out.len() < d.openings.len()
        invariant
            d.seed_claim@.len() == d.openings@.len(),
            claims == elts2(d.openings@),
            seeds == byte_lists(d.seed_claim@),
            out@.len() <= d.openings@.len(),
            (s.st(), elts(out@)) == protocol::claim_draws(
                S::machine(),
                first,
                claims.take(out@.len() as int),
                seeds,
                given,
            ),
        decreases d.openings@.len() - out@.len(),
    {
        let k = out.len();
        let ghost before = elts(out@);
        assert(claims.take(k + 1).drop_last() =~= claims.take(k as int));
        s.observe_bytes(d.seed_claim[k].as_slice());
        let x = if given {
            F::zero()
        } else {
            s.sample_elem()
        };
        observe_elems(s, d.openings[k].as_slice());
        out.push(x);
        assert(elts(out@) =~= before.push(x@));
    }
    assert(claims.take(claims.len() as int) =~= claims);
    out
}

fn ood_points<S: Sponge>(answers: &[F], s: &mut S) -> (out: Vec<F>)
    ensures
        (final(s).st(), elts(out@)) == protocol::ood_draws(
            S::machine(),
            old(s).st(),
            elts(answers@),
        ),
        out@.len() == answers@.len(),
{
    let ghost first = s.st();
    let ghost all = elts(answers@);
    let mut out: Vec<F> = Vec::new();
    proof {
        assert(all.take(0) =~= Seq::<field::Elt>::empty());
        assert(elts(out@) =~= Seq::<field::Elt>::empty());
    }
    while out.len() < answers.len()
        invariant
            all == elts(answers@),
            out@.len() <= answers@.len(),
            (s.st(), elts(out@)) == protocol::ood_draws(
                S::machine(),
                first,
                all.take(out@.len() as int),
            ),
        decreases answers@.len() - out@.len(),
    {
        let k = out.len();
        let ghost before = elts(out@);
        assert(all.take(k + 1).drop_last() =~= all.take(k as int));
        let x = s.sample_elem();
        s.observe_elem(answers[k]);
        out.push(x);
        assert(elts(out@) =~= before.push(x@));
    }
    assert(all.take(all.len() as int) =~= all);
    out
}

fn round_challenges<S: Sponge>(rc: &RoundConfig, rd: &RoundData, s: &mut S) -> (r: (
    RoundChallenges,
    bool,
))
    requires
        round_transcribable(*rc, *rd),
    ensures
        (final(s).st(), r.0.draws(), r.1) == protocol::round_draws(
            S::machine(),
            old(s).st(),
            *rc,
            rd.messages(),
        ),
        r.0.ood_points@.len() == rd.ood_answers@.len(),
        r.0.folding@.len() == rd.sumcheck@.len(),
        forall|i: int|
            0 <= i < r.0.queries@.len() ==> (#[trigger] r.0.queries@[i]) < pow2(
                rc.index_width as nat,
            ),
{
    s.observe_bytes(rd.cap.as_slice());
    let ood_points = ood_points(rd.ood_answers.as_slice(), s);
    let ground = s.check_witness(rc.pow_bits, rd.pow_witness);
    let queries = stir_queries(s, rc.index_width, rc.num_queries);
    let combination = s.sample_elem();
    s.observe_bytes(rd.seed_sumcheck.as_slice());
    let (folding, ok) = sumcheck_rounds(s, rd.sumcheck.as_slice(), rc.folding_pow_bits);
    (RoundChallenges { ood_points, queries, combination, folding }, ground && ok)
}

/// Drive `s` through the transcript after the commitment, and collect what it
/// draws. A layer in front of the opening runs between [`absorb_commitment`]
/// and this.
pub fn transcript_after<S: Sponge>(cfg: &Config, d: &Data, s: &mut S) -> (ch: Challenges)
    requires
        transcribable(*cfg, *d),
    ensures
        (final(s).st(), ch.draws()) == protocol::transcript(
            S::machine(),
            old(s).st(),
            *cfg,
            d.messages(),
        ),
        challenges_shaped(*cfg, *d, ch),
{
    let ghost m = S::machine();
    let ghost msgs = d.messages();
    let initial_ood_points = virtual_points(d, s);
    let opening_points = claim_points(d, cfg.given_points, s);
    s.observe_bytes(d.seed_whir_batching.as_slice());
    let alpha = s.sample_elem();
    s.observe_bytes(d.seed_initial_sumcheck.as_slice());
    let (initial_folding, ok1) = sumcheck_rounds(
        s,
        d.initial_sumcheck.as_slice(),
        cfg.initial_folding_pow_bits,
    );
    let ghost start = s.st();
    let mut ok2 = true;
    let mut rounds: Vec<RoundChallenges> = Vec::new();
    let ghost mut drawn = Seq::<RoundDraws>::empty();
    proof {
        assert(msgs.rounds.take(0) =~= Seq::<RoundM>::empty());
    }
    while rounds.len() < d.rounds.len()
        invariant
            transcribable(*cfg, *d),
            m == S::machine(),
            msgs == d.messages(),
            rounds@.len() <= d.rounds@.len(),
            drawn.len() == rounds@.len(),
            forall|i: int| 0 <= i < rounds@.len() ==> (#[trigger] rounds@[i]).draws() == drawn[i],
            (s.st(), drawn, ok2) == protocol::rounds_draws(
                m,
                start,
                cfg.rounds@,
                msgs.rounds.take(rounds@.len() as int),
            ),
            forall|i: int|
                0 <= i < rounds@.len() ==> round_shaped(
                    cfg.rounds@[i],
                    d.rounds@[i],
                    #[trigger] rounds@[i],
                ),
        decreases d.rounds@.len() - rounds@.len(),
    {
        let k = rounds.len();
        proof {
            assert(msgs.rounds.take(k + 1).drop_last() =~= msgs.rounds.take(k as int));
            assert(msgs.rounds.take(k + 1).last() == d.rounds@[k as int].messages());
            assert(round_transcribable(cfg.rounds@[k as int], d.rounds@[k as int]));
        }
        let (r, ground) = round_challenges(&cfg.rounds[k], &d.rounds[k], s);
        ok2 = ok2 && ground;
        proof {
            drawn = drawn.push(r.draws());
        }
        rounds.push(r);
    }
    proof {
        assert(msgs.rounds.take(rounds@.len() as int) =~= msgs.rounds);
    }
    observe_elems(s, d.final_poly.as_slice());
    let ground = s.check_witness(cfg.final_pow_bits, d.final_pow_witness);
    let final_queries = stir_queries(s, cfg.final_index_width, cfg.final_queries);
    s.observe_bytes(d.seed_final_sumcheck.as_slice());
    let (final_folding, ok3) = sumcheck_rounds(
        s,
        d.final_sumcheck.as_slice(),
        cfg.final_folding_pow_bits,
    );
    let ch = Challenges {
        initial_ood_points,
        opening_points,
        alpha,
        initial_folding,
        rounds,
        final_queries,
        final_folding,
        pow_ok: ok1 && ok2 && (ground && ok3),
    };
    assert(ch.draws().rounds =~= drawn);
    ch
}

pub open spec fn round_shaped(rc: RoundConfig, rd: RoundData, r: RoundChallenges) -> bool {
    &&& r.ood_points@.len() == rd.ood_answers@.len()
    &&& r.folding@.len() == rd.sumcheck@.len()
    &&& forall|q: int|
        0 <= q < r.queries@.len() ==> (#[trigger] r.queries@[q]) < pow2(rc.index_width as nat)
}

/// One challenge per message, and queries that name leaves.
pub open spec fn challenges_shaped(cfg: Config, d: Data, ch: Challenges) -> bool {
    &&& ch.initial_ood_points@.len() == d.initial_ood_answers@.len()
    &&& ch.opening_points@.len() == d.openings@.len()
    &&& ch.initial_folding@.len() == d.initial_sumcheck@.len()
    &&& ch.rounds@.len() == d.rounds@.len()
    &&& forall|i: int|
        0 <= i < ch.rounds@.len() ==> round_shaped(
            cfg.rounds@[i],
            d.rounds@[i],
            #[trigger] ch.rounds@[i],
        )
    &&& forall|q: int|
        0 <= q < ch.final_queries@.len() ==> (#[trigger] ch.final_queries@[q]) < pow2(
            cfg.final_index_width as nat,
        )
    &&& ch.final_folding@.len() == d.final_sumcheck@.len()
}

/// Drive `s` through the verifier's transcript and collect what it draws.
pub fn transcript<S: Sponge>(cfg: &Config, d: &Data, s: &mut S) -> (ch: Challenges)
    requires
        transcribable(*cfg, *d),
    ensures
        (final(s).st(), ch.draws()) == protocol::transcript(
            S::machine(),
            protocol::absorb_commitment(S::machine(), old(s).st(), d.messages()),
            *cfg,
            d.messages(),
        ),
        challenges_shaped(*cfg, *d, ch),
{
    absorb_commitment(d, s);
    transcript_after(cfg, d, s)
}

// ---------------------------------------------------------------------------
// Arithmetic.
// ---------------------------------------------------------------------------

/// `[y^(2^(m-1)), ..., y^2, y]`.
pub fn expand_univariate(y: F, m: usize) -> (out: Vec<F>)
    ensures
        elts(out@) == protocol::expand_univariate(y@, m as nat),
{
    let mut out: Vec<F> = Vec::new();
    while out.len() < m
        invariant
            out@.len() <= m,
            forall|i: int|
                0 <= i < out@.len() ==> (#[trigger] out@[i])@ == protocol::squared(
                    y@,
                    (m - 1 - i) as nat,
                ),
        decreases m - out@.len(),
    {
        let k = m - 1 - out.len();
        let mut cur = y;
        let mut j: usize = 0;
        while j < k
            invariant
                j <= k,
                cur@ == protocol::squared(y@, j as nat),
            decreases k - j,
        {
            cur = cur.square();
            j = j + 1;
        }
        out.push(cur);
    }
    assert(elts(out@) =~= protocol::expand_univariate(y@, m as nat));
    out
}

/// `prod (p_i + r_i + 1)`.
pub fn eq_eval(p: &[F], r: &[F]) -> (v: F)
    requires
        p@.len() == r@.len(),
    ensures
        v@ == protocol::eq_eval(elts(p@), elts(r@)),
{
    let ghost ps = elts(p@);
    let ghost rs = elts(r@);
    let one = F::one();
    let mut acc = F::one();
    let mut i: usize = 0;
    assert(ps.take(0) =~= Seq::<field::Elt>::empty());
    while i < p.len()
        invariant
            i <= p@.len() == r@.len(),
            one@ == field::one128(),
            ps == elts(p@),
            rs == elts(r@),
            acc@ == protocol::eq_eval(ps.take(i as int), rs.take(i as int)),
        decreases p@.len() - i,
    {
        acc = acc.times(p[i].plus(r[i]).plus(one));
        proof {
            assert(ps.take(i + 1).drop_last() =~= ps.take(i as int));
            assert(rs.take(i + 1).drop_last() =~= rs.take(i as int));
        }
        i = i + 1;
    }
    proof {
        assert(ps.take(i as int) =~= ps);
        assert(rs.take(i as int) =~= rs);
    }
    acc
}

/// The quadratic through `e0` at 0 and `e1` at 1 with leading coefficient
/// `e_inf`, at `r`.
pub fn extrapolate_01inf(e0: F, e1: F, e_inf: F, r: F) -> (v: F)
    ensures
        v@ == protocol::extrapolate_01inf(e0@, e1@, e_inf@, r@),
{
    let one = F::one();
    e0.times(one.plus(r)).plus(e1.times(r)).plus(e_inf.times(r.times(r.plus(one))))
}

pub fn sumcheck_round(claim: F, c0: F, c_inf: F, r: F) -> (v: F)
    ensures
        v@ == protocol::sumcheck_round(claim@, c0@, c_inf@, r@),
{
    extrapolate_01inf(c0, claim.plus(c0), c_inf, r)
}

/// The elements of a slice.
pub(crate) fn copied(x: &[F]) -> (r: Vec<F>)
    ensures
        r@ == x@,
{
    let mut r: Vec<F> = Vec::new();
    while r.len() < x.len()
        invariant
            r@.len() <= x@.len(),
            r@ == x@.take(r@.len() as int),
        decreases x@.len() - r@.len(),
    {
        let k = r.len();
        r.push(x[k]);
        assert(x@.take(k + 1) =~= x@.take(k as int).push(x@[k as int]));
    }
    assert(x@.take(x@.len() as int) =~= x@);
    r
}

/// The elements of a slice, last first.
pub(crate) fn reversed(x: &[F]) -> (r: Vec<F>)
    ensures
        elts(r@) == protocol::reversed(elts(x@)),
        r@.len() == x@.len(),
{
    let n = x.len();
    let mut r: Vec<F> = Vec::new();
    while r.len() < n
        invariant
            n == x@.len(),
            r@.len() <= n,
            forall|i: int| 0 <= i < r@.len() ==> #[trigger] r@[i] == x@[n - 1 - i],
        decreases n - r@.len(),
    {
        let k = n - 1 - r.len();
        r.push(x[k]);
    }
    assert(elts(r@) =~= protocol::reversed(elts(x@)));
    r
}

/// `2^n` evaluations at a point; the last variable pairs adjacent entries.
pub fn eval_multilinear(evals: &[F], point: &[F]) -> (v: F)
    requires
        evals@.len() == pow2(point@.len()),
    ensures
        v@ == protocol::eval_multilinear(elts(evals@), elts(point@)),
{
    let ghost pt = elts(point@);
    let mut cur = copied(evals);
    let mut n: usize = point.len();
    assert(pt.take(n as int) =~= pt);
    while n > 0
        invariant
            n <= point@.len(),
            pt == elts(point@),
            cur@.len() == pow2(n as nat),
            protocol::eval_multilinear(elts(cur@), pt.take(n as int))
                == protocol::eval_multilinear(elts(evals@), pt),
        decreases n,
    {
        let x = point[n - 1];
        let total = cur.len();
        let half = total / 2;
        let mut next: Vec<F> = Vec::new();
        proof {
            vstd::arithmetic::power2::lemma_pow2_unfold(n as nat);
            vstd::arithmetic::power2::lemma_pow2_pos((n - 1) as nat);
        }
        while next.len() < half
            invariant
                total == cur@.len(),
                half == total / 2,
                next@.len() <= half,
                forall|j: int|
                    0 <= j < next@.len() ==> (#[trigger] next@[j])@ == protocol::bind(
                        elts(cur@),
                        x@,
                    )[j],
            decreases half - next@.len(),
        {
            let j = next.len();
            next.push(cur[2 * j].plus(x.times(cur[2 * j + 1].plus(cur[2 * j]))));
        }
        proof {
            assert(elts(next@) =~= protocol::bind(elts(cur@), x@));
            assert(pt.take(n as int).drop_last() =~= pt.take(n - 1));
            assert(pt.take(n as int).last() == x@);
        }
        cur = next;
        n = n - 1;
    }
    proof {
        vstd::arithmetic::power2::lemma2_to64();
    }
    cur[0]
}

/// A coefficient table at a point, folded coordinate by coordinate, last
/// coordinate first.
pub fn eval_coefficients(coeffs: &[F], point: &[F]) -> (v: F)
    requires
        coeffs@.len() == pow2(point@.len()),
    ensures
        v@ == protocol::eval_coefficients(elts(coeffs@), elts(point@)),
{
    let ghost pt = elts(point@);
    let mut cur = copied(coeffs);
    let mut n: usize = point.len();
    assert(pt.take(n as int) =~= pt);
    while n > 0
        invariant
            n <= point@.len(),
            pt == elts(point@),
            cur@.len() == pow2(n as nat),
            protocol::eval_coefficients(elts(cur@), pt.take(n as int))
                == protocol::eval_coefficients(elts(coeffs@), pt),
        decreases n,
    {
        let c = point[n - 1];
        let total = cur.len();
        let half = total / 2;
        let mut next: Vec<F> = Vec::new();
        proof {
            vstd::arithmetic::power2::lemma_pow2_unfold(n as nat);
            vstd::arithmetic::power2::lemma_pow2_pos((n - 1) as nat);
        }
        while next.len() < half
            invariant
                total == cur@.len(),
                half == total / 2,
                next@.len() <= half,
                forall|j: int|
                    0 <= j < next@.len() ==> (#[trigger] next@[j])@ == protocol::bind_coefficients(
                        elts(cur@),
                        c@,
                    )[j],
            decreases half - next@.len(),
        {
            let j = next.len();
            next.push(cur[2 * j].plus(cur[2 * j + 1].times(c)));
        }
        proof {
            assert(elts(next@) =~= protocol::bind_coefficients(elts(cur@), c@));
            assert(pt.take(n as int).drop_last() =~= pt.take(n - 1));
            assert(pt.take(n as int).last() == c@);
        }
        cur = next;
        n = n - 1;
    }
    proof {
        vstd::arithmetic::power2::lemma2_to64();
    }
    cur[0]
}

/// The weight of a direct point: `prod (r_i (p_i - 1) + 1)`.
pub fn select_point_weight(p: &[F], r: &[F]) -> (v: F)
    requires
        p@.len() == r@.len(),
    ensures
        v@ == protocol::select_point_weight(elts(p@), elts(r@)),
{
    let ghost ps = elts(p@);
    let ghost rs = elts(r@);
    let one = F::one();
    let mut acc = F::one();
    let mut i: usize = 0;
    assert(ps.take(0) =~= Seq::<field::Elt>::empty());
    while i < p.len()
        invariant
            i <= p@.len() == r@.len(),
            one@ == field::one128(),
            ps == elts(p@),
            rs == elts(r@),
            acc@ == protocol::select_point_weight(ps.take(i as int), rs.take(i as int)),
        decreases p@.len() - i,
    {
        acc = acc.times(r[i].times(p[i].plus(one)).plus(one));
        proof {
            assert(ps.take(i + 1).drop_last() =~= ps.take(i as int));
            assert(rs.take(i + 1).drop_last() =~= rs.take(i as int));
        }
        i = i + 1;
    }
    proof {
        assert(ps.take(i as int) =~= ps);
        assert(rs.take(i as int) =~= rs);
    }
    acc
}

/// The Cantor-basis vector with the index's bits.
pub fn domain_point(index: usize) -> (x: F)
    ensures
        x@ == protocol::domain_point(index as nat),
{
    let mut point = F::zero();
    let mut remaining: usize = index;
    let mut r: usize = 0;
    proof {
        vstd::layout::unsigned_int_max_values();
        vstd::arithmetic::power2::lemma2_to64();
        protocol::lemma_domain_len(index as nat, 0);
        field::law_plus_self(protocol::domain_point(index as nat));
        field::law_plus_comm(field::zero128(), protocol::domain_point(index as nat));
    }
    while remaining != 0
        invariant
            r <= usize::BITS,
            usize::BITS <= 64,
            remaining < pow2((usize::BITS - r) as nat),
            field::plus(point@, protocol::domain_point_from(remaining as nat, r as nat))
                == protocol::domain_point(index as nat),
        decreases remaining,
    {
        let ghost higher = protocol::domain_point_from((remaining / 2) as nat, (r + 1) as nat);
        proof {
            vstd::arithmetic::power2::lemma2_to64();
            if r == usize::BITS {
                assert(false);
            }
            vstd::arithmetic::power2::lemma_pow2_unfold((usize::BITS - r) as nat);
            protocol::lemma_domain_len((remaining / 2) as nat, (r + 1) as nat);
        }
        if remaining % 2 == 1 {
            let v = F::cantor_basis(r);
            proof {
                field::law_plus_assoc(point@, v@, higher);
            }
            point = point.plus(v);
        }
        remaining = remaining / 2;
        r = r + 1;
    }
    proof {
        field::law_plus_self(point@);
    }
    point
}

/// `j` iterations of `v -> v^2 + v`.
pub fn subspace_polynomial(j: usize, x: F) -> (v: F)
    ensures
        v@ == protocol::subspace_polynomial(j as nat, x@),
{
    let mut v = x;
    let mut i: usize = 0;
    while i < j
        invariant
            i <= j,
            v@ == protocol::subspace_polynomial(i as nat, x@),
        decreases j - i,
    {
        v = v.square().plus(v);
        i = i + 1;
    }
    v
}

/// The multilinear point of a queried position: `(S_{n-1}(x), ..., S_0(x))`.
pub fn query_point(num_variables: usize, index: usize) -> (out: Vec<F>)
    ensures
        elts(out@) == protocol::query_point(num_variables as nat, index as nat),
{
    let x = domain_point(index);
    let mut out: Vec<F> = Vec::new();
    while out.len() < num_variables
        invariant
            x@ == protocol::domain_point(index as nat),
            out@.len() <= num_variables,
            forall|i: int|
                0 <= i < out@.len() ==> (#[trigger] out@[i])@ == protocol::subspace_polynomial(
                    (num_variables - 1 - i) as nat,
                    x@,
                ),
        decreases num_variables - out@.len(),
    {
        let j = num_variables - 1 - out.len();
        out.push(subspace_polynomial(j, x));
    }
    assert(elts(out@) =~= protocol::query_point(num_variables as nat, index as nat));
    out
}

/// `claim + sum chi^(shift + i) e_i`.
fn combine_into(claim: F, chi: F, shift: usize, evals: &[F]) -> (v: F)
    ensures
        v@ == protocol::combine(claim@, chi@, shift as nat, elts(evals@)),
{
    let ghost es = elts(evals@);
    let mut acc = claim;
    let mut power = chi.power(shift);
    let mut i: usize = 0;
    assert(es.take(0) =~= Seq::<field::Elt>::empty());
    while i < evals.len()
        invariant
            i <= evals@.len(),
            es == elts(evals@),
            power@ == field::power(chi@, (shift + i) as nat),
            acc@ == protocol::combine(claim@, chi@, shift as nat, es.take(i as int)),
        decreases evals@.len() - i,
    {
        acc = acc.plus(power.times(evals[i]));
        power = power.times(chi);
        assert(es.take(i + 1).drop_last() =~= es.take(i as int));
        i = i + 1;
    }
    assert(es.take(i as int) =~= es);
    acc
}

/// The claim after a sumcheck.
fn sumcheck_claim(claim: F, rounds: &[SumcheckRoundData], folding: &[F]) -> (v: F)
    requires
        folding@.len() == rounds@.len(),
    ensures
        v@ == protocol::sumcheck_claim(claim@, sumcheck_messages(rounds@), elts(folding@)),
{
    let ghost msgs = sumcheck_messages(rounds@);
    let mut acc = claim;
    let mut i: usize = 0;
    assert(msgs.take(0) =~= Seq::<SumcheckM>::empty());
    while i < rounds.len()
        invariant
            i <= rounds@.len() == folding@.len(),
            msgs == sumcheck_messages(rounds@),
            acc@ == protocol::sumcheck_claim(claim@, msgs.take(i as int), elts(folding@)),
        decreases rounds@.len() - i,
    {
        acc = sumcheck_round(acc, rounds[i].poly[0], rounds[i].poly[1], folding[i]);
        assert(msgs.take(i + 1).drop_last() =~= msgs.take(i as int));
        i = i + 1;
    }
    assert(msgs.take(i as int) =~= msgs);
    acc
}

/// A batched constraint: `eq` weights at some points, then direct weights at
/// others.
struct Constraint {
    challenge: F,
    num_variables: usize,
    initial_power: usize,
    eq_points: Vec<Vec<F>>,
    direct_points: Vec<Vec<F>>,
}

impl Constraint {
    spec fn model(self) -> protocol::ConstraintM {
        protocol::ConstraintM {
            challenge: self.challenge@,
            arity: self.num_variables as nat,
            initial_power: self.initial_power as nat,
            eq_points: elts2(self.eq_points@),
            direct_points: elts2(self.direct_points@),
        }
    }

    /// Every point has the constraint's arity.
    spec fn shaped(self) -> bool {
        &&& forall|i: int|
            0 <= i < self.eq_points@.len() ==> (#[trigger] self.eq_points@[i])@.len()
                == self.num_variables
        &&& forall|i: int|
            0 <= i < self.direct_points@.len() ==> (#[trigger] self.direct_points@[i])@.len()
                == self.num_variables
    }
}

/// A constraint's weight in suffix order: arity `n` reads the first `n`
/// coordinates of the reversed randomness.
fn constraint_weight(c: &Constraint, rev: &[F]) -> (w: F)
    requires
        c.shaped(),
        c.num_variables <= rev@.len(),
    ensures
        w@ == protocol::constraint_weight(c.model(), elts(rev@)),
{
    let mut local: Vec<F> = Vec::new();
    while local.len() < c.num_variables
        invariant
            c.num_variables <= rev@.len(),
            local@.len() <= c.num_variables,
            local@ == rev@.take(local@.len() as int),
        decreases c.num_variables - local@.len(),
    {
        let k = local.len();
        local.push(rev[k]);
        assert(rev@.take(k + 1) =~= rev@.take(k as int).push(rev@[k as int]));
    }
    let ghost loc = elts(local@);
    assert(loc =~= elts(rev@).take(c.num_variables as int));
    let mut ws: Vec<F> = Vec::new();
    let n = c.eq_points.len();
    while ws.len() < n
        invariant
            c.shaped(),
            n == c.eq_points@.len(),
            local@.len() == c.num_variables,
            loc == elts(local@),
            ws@.len() <= n,
            forall|i: int|
                0 <= i < ws@.len() ==> (#[trigger] ws@[i])@ == protocol::eq_eval(
                    elts(c.eq_points@[i]@),
                    loc,
                ),
        decreases n - ws@.len(),
    {
        let k = ws.len();
        assert(c.eq_points@[k as int]@.len() == c.num_variables);
        ws.push(eq_eval(c.eq_points[k].as_slice(), local.as_slice()));
    }
    let mut k: usize = 0;
    while k < c.direct_points.len()
        invariant
            c.shaped(),
            n == c.eq_points@.len(),
            local@.len() == c.num_variables,
            loc == elts(local@),
            k <= c.direct_points@.len(),
            ws@.len() == n + k,
            forall|i: int|
                0 <= i < n ==> (#[trigger] ws@[i])@ == protocol::eq_eval(
                    elts(c.eq_points@[i]@),
                    loc,
                ),
            forall|i: int|
                n <= i < n + k ==> (#[trigger] ws@[i])@ == protocol::select_point_weight(
                    elts(c.direct_points@[i - n]@),
                    loc,
                ),
        decreases c.direct_points@.len() - k,
    {
        assert(c.direct_points@[k as int]@.len() == c.num_variables);
        ws.push(select_point_weight(c.direct_points[k].as_slice(), local.as_slice()));
        k = k + 1;
    }
    proof {
        let m = c.model();
        let eq_w = Seq::new(m.eq_points.len(), |i: int| protocol::eq_eval(m.eq_points[i], loc));
        let direct_w = Seq::new(
            m.direct_points.len(),
            |i: int| protocol::select_point_weight(m.direct_points[i], loc),
        );
        assert(elts(ws@) =~= eq_w + direct_w);
    }
    combine_into(F::zero(), c.challenge, c.initial_power, ws.as_slice())
}

// ---------------------------------------------------------------------------
// The openings.
// ---------------------------------------------------------------------------

#[derive(Clone, Copy, Debug, PartialEq, Eq, Structural)]
pub enum Error {
    Pow,
    Opening { round: usize },
    Merkle { round: usize, query: usize },
    FinalStir { query: usize },
    Closing { claimed: u128, expected: u128 },
}

/// The leaf of a row: Blake3 of the elements' bytes.
pub fn leaf(row: &[F]) -> (d: Digest)
    ensures
        d@ == hash::digest(protocol::row_bytes(elts(row@))),
{
    let ghost es = elts(row@);
    let mut buf: Vec<u8> = Vec::new();
    let mut i: usize = 0;
    assert(es.take(0) =~= Seq::<field::Elt>::empty());
    while i < row.len()
        invariant
            i <= row@.len(),
            es == elts(row@),
            buf@ == protocol::row_bytes(es.take(i as int)),
        decreases row@.len() - i,
    {
        let mut b = bytes::elem_bytes(row[i]);
        buf.append(&mut b);
        assert(es.take(i + 1).drop_last() =~= es.take(i as int));
        i = i + 1;
    }
    assert(es.take(i as int) =~= es);
    hash::blake3_digest(buf.as_slice())
}

/// The leaf digests of some rows.
pub open spec fn leaf_digests(rows: Seq<Seq<field::Elt>>) -> Seq<Seq<u8>> {
    Seq::new(rows.len(), |q: int| hash::digest(protocol::row_bytes(rows[q])))
}

/// The digests as byte strings.
pub open spec fn digest_bytes(ds: Seq<Digest>) -> Seq<Seq<u8>> {
    Seq::new(ds.len(), |i: int| ds[i]@)
}

/// The cap is made of whole roots.
pub open spec fn whole_cap(cap: Seq<u8>) -> bool {
    cap.len() % 32 == 0 && cap.len() > 0
}

/// The pruned opening can be expanded: one row per query, whole roots, every
/// query names a leaf, and the boundary digests are as many as the queries
/// need.
pub open spec fn opening_well_formed(
    o: Opening,
    cap: Seq<u8>,
    queries: Seq<usize>,
    width: nat,
) -> bool {
    let idx = merkle::ints(queries);
    &&& o.rows@.len() == queries.len()
    &&& whole_cap(cap)
    &&& merkle::well_indexed(idx, queries.len(), width)
    &&& o.boundaries@.len() == merkle::boundary_count(
        merkle::sorted_unique(idx),
        protocol::path_depth(cap, width),
    )
}

/// The full sibling paths that an opening expands to.
pub open spec fn opening_paths(o: Opening, cap: Seq<u8>, queries: Seq<usize>, width: nat) -> Seq<
    Seq<Seq<u8>>,
> {
    let idx = merkle::ints(queries);
    let s = merkle::sorted_unique(idx);
    let leaves = merkle::unique_leaves::<Blake3Tree>(idx, leaf_digests(elts2(o.rows@)));
    Seq::new(
        queries.len(),
        |q: int|
            Seq::new(
                protocol::path_depth(cap, width),
                |l: int|
                    merkle::path_sibling::<Blake3Tree>(
                        s,
                        leaves,
                        digest_bytes(o.boundaries@),
                        idx[q],
                        l as nat,
                    ),
            ),
    )
}

/// Whether a digest is the `k`-th root of a cap.
fn is_root(cap: &[u8], k: usize, d: &Digest) -> (r: bool)
    requires
        32 * k + 32 <= cap@.len(),
    ensures
        r == (d@ == protocol::cap_root(cap@, k as int)),
{
    let ghost root = protocol::cap_root(cap@, k as int);
    let n = cap.len();
    let mut i: usize = 0;
    while i < 32
        invariant
            i <= 32,
            n == cap@.len(),
            32 * k + 32 <= n,
            root == protocol::cap_root(cap@, k as int),
            forall|j: int| 0 <= j < i ==> d@[j] == root[j],
        decreases 32 - i,
    {
        assert(root[i as int] == cap@[32 * k + i]);
        if d[i] != cap[32 * k + i] {
            return false;
        }
        i = i + 1;
    }
    assert(d@ =~= root);
    true
}

/// The node that a path climbs to from a leaf, and what is left of its index there.
fn climb(from: &Digest, path: &merkle::Path<Digest>) -> (r: (Digest, usize))
    ensures
        r.0@ == protocol::climb(
            blake3(),
            path.index as nat,
            from@,
            digest_bytes(path.siblings@),
            path.siblings@.len(),
        ),
        r.1 == merkle::ancestor(path.index as int, path.siblings@.len()),
{
    let ghost sibs = digest_bytes(path.siblings@);
    let mut cur = *from;
    let mut i: usize = path.index;
    let mut level: usize = 0;
    while level < path.siblings.len()
        invariant
            level <= path.siblings@.len(),
            sibs == digest_bytes(path.siblings@),
            i == merkle::ancestor(path.index as int, level as nat),
            cur@ == protocol::climb(
                blake3(),
                path.index as nat,
                from@,
                sibs,
                level as nat,
            ),
        decreases path.siblings@.len() - level,
    {
        let sib = path.siblings[level];
        cur = if i % 2 == 1 {
            compress(&sib, &cur)
        } else {
            compress(&cur, &sib)
        };
        i = i / 2;
        level = level + 1;
    }
    (cur, i)
}

proof fn lemma_ancestor_bound(i: int, n: nat, k: nat)
    requires
        0 <= i < pow2(n),
        k <= n,
    ensures
        0 <= merkle::ancestor(i, k) < pow2((n - k) as nat),
    decreases k,
{
    if k > 0 {
        lemma_ancestor_bound(i, n, (k - 1) as nat);
        vstd::arithmetic::power2::lemma_pow2_unfold((n - k + 1) as nat);
    }
}

/// Every query's path must reach its root in the cap, from the digest of the row
/// that the query opens.
fn check_opening(
    opening: &Opening,
    cap: &[u8],
    indices: &[usize],
    index_width: usize,
    round: usize,
) -> (r: Result<(), Error>)
    requires
        opening.rows@.len() == indices@.len() && whole_cap(cap@) ==> protocol::cap_shaped(
            cap@,
            index_width as nat,
        ),
    ensures
        ({
            let rows = elts2(opening.rows@);
            let width = index_width as nat;
            let paths = opening_paths(*opening, cap@, indices@, width);
            let ok = |q: int|
                protocol::query_authentic(
                    blake3(),
                    rows,
                    paths,
                    cap@,
                    nats(indices@),
                    width,
                    q,
                );
            match r {
                Ok(_) => opening_well_formed(*opening, cap@, indices@, width)
                    && protocol::opening_authentic(
                    blake3(),
                    rows,
                    paths,
                    cap@,
                    nats(indices@),
                    width,
                ),
                Err(e) => {
                    ||| !opening_well_formed(*opening, cap@, indices@, width) && e
                        == Error::Opening { round }
                    ||| opening_well_formed(*opening, cap@, indices@, width) && exists|q: int|
                        0 <= q < indices@.len() && e == (Error::Merkle {
                            round,
                            query: q as usize,
                        }) && !(#[trigger] ok(q)) && forall|k: int| 0 <= k < q ==> #[trigger] ok(k)
                },
            }
        }),
{
    let ghost width = index_width as nat;
    let ghost rows = elts2(opening.rows@);
    let ghost paths_spec = opening_paths(*opening, cap@, indices@, width);
    let ghost ok = |q: int|
        protocol::query_authentic(blake3(), rows, paths_spec, cap@, nats(indices@), width, q);
    if opening.rows.len() != indices.len() || cap.len() % 32 != 0 || cap.len() == 0 {
        return Err(Error::Opening { round });
    }
    let roots = cap.len() / 32;
    let cap_height = floor_log2(roots);
    let mut leaves: Vec<Digest> = Vec::new();
    while leaves.len() < opening.rows.len()
        invariant
            rows == elts2(opening.rows@),
            leaves@.len() <= opening.rows@.len(),
            forall|q: int|
                0 <= q < leaves@.len() ==> (#[trigger] leaves@[q])@ == hash::digest(
                    protocol::row_bytes(rows[q]),
                ),
        decreases opening.rows@.len() - leaves@.len(),
    {
        let k = leaves.len();
        leaves.push(leaf(opening.rows[k].as_slice()));
    }
    proof {
        assert(merkle::models::<Blake3Tree>(leaves@) =~= leaf_digests(rows));
        assert(merkle::models::<Blake3Tree>(opening.boundaries@) =~= digest_bytes(
            opening.boundaries@,
        ));
    }
    let ghost idx = merkle::ints(indices@);
    let paths = match pruned::expand(
        opening.boundaries.as_slice(),
        indices,
        leaves.as_slice(),
        index_width,
        cap_height,
    ) {
        Ok(paths) => paths,
        Err(_) => {
            return Err(Error::Opening { round });
        },
    };
    let mut query: usize = 0;
    while query < paths.len()
        invariant
            query <= paths@.len() == indices@.len(),
            width == index_width,
            rows == elts2(opening.rows@),
            opening.rows@.len() == indices@.len(),
            idx == merkle::ints(indices@),
            cap_height == protocol::log2(cap@.len() / 32),
            protocol::cap_shaped(cap@, width),
            paths_spec == opening_paths(*opening, cap@, indices@, width),
            opening_well_formed(*opening, cap@, indices@, width),
            leaf_digests(rows).len() == rows.len(),
            merkle::expansion::<Blake3Tree>(
                digest_bytes(opening.boundaries@),
                idx,
                leaf_digests(rows),
                (width - cap_height) as nat,
                paths@,
            ),
            leaves@.len() == opening.rows@.len(),
            forall|q: int|
                0 <= q < leaves@.len() ==> (#[trigger] leaves@[q])@ == hash::digest(
                    protocol::row_bytes(rows[q]),
                ),
            ok == (|q: int|
                protocol::query_authentic(
                    blake3(),
                    rows,
                    paths_spec,
                    cap@,
                    nats(indices@),
                    width,
                    q,
                )),
            forall|k: int| 0 <= k < query ==> #[trigger] ok(k),
        decreases paths@.len() - query,
    {
        let path = &paths[query];
        let (cur, root) = climb(&leaves[query], path);
        proof {
            let q = query as int;
            let depth = protocol::path_depth(cap@, width);
            assert(path.index == idx[q]);
            assert(idx[q] < pow2(width));
            lemma_ancestor_bound(idx[q], width, depth);
            assert(root < pow2(cap_height as nat));
            assert(digest_bytes(path.siblings@) =~= paths_spec[q]);
            assert(leaves@[q]@ == hash::digest(protocol::row_bytes(rows[q])));
        }
        if !is_root(cap, root, &cur) {
            assert(!ok(query as int));
            return Err(Error::Merkle { round, query });
        }
        assert(ok(query as int));
        query = query + 1;
    }
    proof {
        let qs = nats(indices@);
        assert forall|q: int| 0 <= q < qs.len() implies #[trigger] protocol::query_authentic(
            blake3(),
            rows,
            paths_spec,
            cap@,
            qs,
            width,
            q,
        ) by {
            assert(ok(q));
        }
    }
    Ok(())
}

// ---------------------------------------------------------------------------
// The verifier.
// ---------------------------------------------------------------------------

/// What an accepted proof pinned down.
#[derive(Clone, Debug)]
pub struct Verified {
    pub challenges: Challenges,
    pub claimed: F,
    pub weights: F,
    pub final_value: F,
}

/// The opening of round `i`, or the final one after the last round.
pub open spec fn opening_at(d: Data, i: nat) -> Opening {
    if i < d.rounds@.len() {
        d.rounds@[i as int].opening
    } else {
        d.final_opening
    }
}

/// The queries of round `i`, or the final ones after the last round.
pub open spec fn queries_at(ch: Challenges, i: nat) -> Seq<usize> {
    if i < ch.rounds@.len() {
        ch.rounds@[i as int].queries@
    } else {
        ch.final_queries@
    }
}

/// Round `i`'s pruned opening can be expanded.
pub open spec fn round_well_formed(cfg: Config, d: Data, ch: Challenges, i: nat) -> bool {
    opening_well_formed(
        opening_at(d, i),
        protocol::cap_before(d.messages(), i),
        queries_at(ch, i),
        protocol::width_of(cfg, i),
    )
}

/// What is authenticated: every row, along its expanded path.
pub open spec fn authentications(cfg: Config, d: Data, ch: Challenges) -> Seq<protocol::Auth> {
    Seq::new(
        d.rounds@.len() + 1,
        |i: int|
            protocol::Auth {
                rows: elts2(opening_at(d, i as nat).rows@),
                paths: opening_paths(
                    opening_at(d, i as nat),
                    protocol::cap_before(d.messages(), i as nat),
                    queries_at(ch, i as nat),
                    protocol::width_of(cfg, i as nat),
                ),
            },
    )
}

/// The length of the folding randomness before round `i`.
pub open spec fn folding_len(d: Data, i: nat) -> nat {
    if i == 0 {
        d.initial_sumcheck@.len()
    } else {
        d.rounds@[i - 1].sumcheck@.len()
    }
}

/// The randomness drawn up to the end of round `n`.
pub open spec fn randomness_len(d: Data, n: nat) -> nat
    decreases n,
{
    if n == 0 {
        d.initial_sumcheck@.len()
    } else {
        randomness_len(d, (n - 1) as nat) + d.rounds@[n - 1].sumcheck@.len()
    }
}

/// The points of the claims have the polynomial's arity.
pub open spec fn claims_shaped(cfg: Config, d: Data, given: Seq<Vec<F>>) -> bool {
    forall|i: int|
        0 <= i < cfg.claims@.len() && i < d.openings@.len() ==> {
            let shape = #[trigger] cfg.claims@[i];
            if cfg.given_points {
                i < given.len() && given[i]@.len() == cfg.num_variables
            } else {
                forall|j: int|
                    0 <= j < shape.selectors@.len() ==> (#[trigger] shape.selectors@[j])@.len()
                        + shape.row_vars == cfg.num_variables
            }
        }
}

/// The rows, caps and polynomials have the sizes that the configuration asks
/// for.
pub open spec fn shaped(cfg: Config, d: Data, given: Seq<Vec<F>>) -> bool {
    let all = randomness_len(d, d.rounds@.len()) + d.final_sumcheck@.len();
    &&& transcribable(cfg, d)
    &&& claims_shaped(cfg, d, given)
    &&& cfg.num_variables <= all
    &&& forall|i: int|
        0 <= i < cfg.rounds@.len() ==> (#[trigger] cfg.rounds@[i]).num_variables <= all
    &&& forall|i: nat, q: int|
        i <= d.rounds@.len() && 0 <= q < opening_at(d, i).rows@.len() ==> (#[trigger] opening_at(
            d,
            i,
        ).rows@[q])@.len() == pow2(folding_len(d, i))
    &&& forall|i: nat|
        i <= d.rounds@.len() ==> whole_cap(#[trigger] protocol::cap_before(d.messages(), i))
            ==> protocol::cap_shaped(
            protocol::cap_before(d.messages(), i),
            protocol::width_of(cfg, i),
        )
    &&& d.final_poly@.len() == pow2(d.final_sumcheck@.len())
}

/// Round `i`'s opening expands, and its rows reach the cap before it.
pub open spec fn round_sound(cfg: Config, d: Data, ch: Challenges, i: nat) -> bool {
    &&& round_well_formed(cfg, d, ch, i)
    &&& protocol::round_authentic(
        blake3(),
        cfg,
        d.messages(),
        authentications(cfg, d, ch),
        ch.draws(),
        i,
    )
}

/// Every opening before round `k` passes.
pub open spec fn opened_before(cfg: Config, d: Data, ch: Challenges, k: nat) -> bool {
    forall|i: nat| i < k ==> #[trigger] round_sound(cfg, d, ch, i)
}

/// The final polynomial agrees with the first `k` final rows.
pub open spec fn finals_agree(d: Data, ch: Challenges, k: int) -> bool {
    forall|q: int|
        0 <= q < k ==> #[trigger] protocol::final_query_ok(d.messages(), ch.draws(), q)
}

/// The cap before round `i`, where it holds whole roots and a row per query, holds
/// a power of two of them and no more than leaves.
pub open spec fn cap_fits(cfg: Config, d: Data, ch: Challenges, i: nat) -> bool {
    let cap = protocol::cap_before(d.messages(), i);
    opening_at(d, i).rows@.len() == queries_at(ch, i).len() && whole_cap(cap)
        ==> protocol::cap_shaped(cap, protocol::width_of(cfg, i))
}

/// Row `q` of round `i` has the size that its folding point asks for.
pub open spec fn row_fits(d: Data, i: nat, q: int) -> bool {
    opening_at(d, i).rows@[q]@.len() == pow2(folding_len(d, i))
}

/// The final polynomial and every constraint's arity fit the randomness.
pub open spec fn closes_fit(cfg: Config, d: Data) -> bool {
    let all = randomness_len(d, d.rounds@.len()) + d.final_sumcheck@.len();
    &&& d.final_poly@.len() == pow2(d.final_sumcheck@.len())
    &&& cfg.num_variables <= all
    &&& forall|i: int|
        0 <= i < cfg.rounds@.len() ==> (#[trigger] cfg.rounds@[i]).num_variables <= all
}

/// The configuration and the proof fit each other as far as the verifier gets
/// under the challenges.
pub open spec fn verifiable(cfg: Config, d: Data, ch: Challenges, given: Seq<Vec<F>>) -> bool {
    let n = d.rounds@.len();
    &&& cfg.rounds@.len() == n
    &&& ch.pow_ok ==> {
        &&& claims_shaped(cfg, d, given)
        &&& forall|i: nat|
            i <= n && #[trigger] opened_before(cfg, d, ch, i) ==> cap_fits(cfg, d, ch, i)
        &&& forall|i: nat, q: int|
            i < n && opened_before(cfg, d, ch, i + 1) && 0 <= q < opening_at(d, i).rows@.len()
                ==> #[trigger] row_fits(d, i, q)
        &&& opened_before(cfg, d, ch, n + 1) ==> {
            &&& ch.final_queries@.len() > 0 ==> d.final_poly@.len() == pow2(
                protocol::log2(d.final_poly@.len()),
            )
            &&& forall|q: int|
                0 <= q < ch.final_queries@.len() && finals_agree(d, ch, q)
                    ==> #[trigger] row_fits(d, n, q)
            &&& finals_agree(d, ch, ch.final_queries@.len() as int) ==> closes_fit(cfg, d)
        }
    }
}

/// The transcript can be run, and the proof fits as far as the verifier gets under
/// what it draws.
pub open spec fn transcript_verifiable(cfg: Config, d: Data) -> bool {
    &&& transcribable(cfg, d)
    &&& forall|ch: Challenges|
        ch.draws() == transcript_draws(cfg, d) && challenges_shaped(cfg, d, ch)
            ==> #[trigger] verifiable(cfg, d, ch, Seq::empty())
}

/// A proof of the configuration's sizes fits whatever is drawn.
pub proof fn law_shaped_fits(cfg: Config, d: Data, ch: Challenges, given: Seq<Vec<F>>)
    requires
        shaped(cfg, d, given),
        challenges_shaped(cfg, d, ch),
    ensures
        verifiable(cfg, d, ch, given),
{
    let n = d.rounds@.len();
    protocol::lemma_log2_pow2(d.final_sumcheck@.len());
    assert forall|i: nat, q: int|
        i <= n && 0 <= q < opening_at(d, i).rows@.len() implies #[trigger] row_fits(d, i, q) by {
        assert(opening_at(d, i).rows@[q]@.len() == pow2(folding_len(d, i)));
    }
    if opened_before(cfg, d, ch, n + 1) {
        assert(round_sound(cfg, d, ch, n));
    }
}

/// What the arithmetic decides, given the challenges.
pub open spec fn verdict(
    cfg: Config,
    d: Data,
    ch: Challenges,
    given: Seq<Seq<field::Elt>>,
    r: Result<Verified, Error>,
) -> bool {
    let p = d.messages();
    let draws = ch.draws();
    let auth = authentications(cfg, d, ch);
    let h = blake3();
    let n = d.rounds@.len();
    let sound = |i: nat|
        round_well_formed(cfg, d, ch, i) && protocol::round_authentic(h, cfg, p, auth, draws, i);
    let final_ok = |q: int| protocol::final_query_ok(p, draws, q);
    match r {
        Ok(v) => {
            &&& protocol::accepts(h, cfg, p, auth, draws, given)
            &&& forall|i: nat| i <= n ==> #[trigger] round_well_formed(cfg, d, ch, i)
            &&& v.challenges == ch
            &&& v.claimed@ == protocol::final_claim(cfg, p, draws)
            &&& v.weights@ == protocol::final_weight(cfg, p, draws, given)
            &&& v.final_value@ == protocol::final_value(p, draws)
        },
        Err(Error::Pow) => !draws.pow_ok,
        Err(Error::Opening { round }) => {
            &&& draws.pow_ok
            &&& round <= n
            &&& forall|i: nat| i < round ==> #[trigger] sound(i)
            &&& !round_well_formed(cfg, d, ch, round as nat)
        },
        Err(Error::Merkle { round, query }) => {
            &&& draws.pow_ok
            &&& round <= n
            &&& forall|i: nat| i < round ==> #[trigger] sound(i)
            &&& round_well_formed(cfg, d, ch, round as nat)
            &&& first_failure(cfg, d, ch, round as nat, query as int)
        },
        Err(Error::FinalStir { query }) => {
            &&& draws.pow_ok
            &&& forall|i: nat| i <= n ==> #[trigger] sound(i)
            &&& query < draws.final_queries.len()
            &&& forall|q: int| 0 <= q < query ==> #[trigger] final_ok(q)
            &&& !final_ok(query as int)
        },
        Err(Error::Closing { claimed, expected }) => {
            &&& draws.pow_ok
            &&& forall|i: nat| i <= n ==> #[trigger] sound(i)
            &&& forall|q: int| 0 <= q < draws.final_queries.len() ==> #[trigger] final_ok(q)
            &&& field::bits_of(claimed, 128) == protocol::final_claim(cfg, p, draws)
            &&& field::bits_of(expected, 128) == field::times(
                protocol::final_weight(cfg, p, draws, given),
                protocol::final_value(p, draws),
            )
            &&& claimed != expected
        },
    }
}

/// `query` is the first query of round `i` whose path misses its root.
pub open spec fn first_failure(
    cfg: Config,
    d: Data,
    ch: Challenges,
    i: nat,
    query: int,
) -> bool {
    let auth = authentications(cfg, d, ch)[i as int];
    let ok = |q: int|
        protocol::query_authentic(
            blake3(),
            auth.rows,
            auth.paths,
            protocol::cap_before(d.messages(), i),
            protocol::queries_of(ch.draws(), i),
            protocol::width_of(cfg, i),
            q,
        );
    &&& 0 <= query < protocol::queries_of(ch.draws(), i).len()
    &&& forall|q: int| 0 <= q < query ==> #[trigger] ok(q)
    &&& !ok(query)
}

/// Points of one arity.
spec fn all_len(points: Seq<Vec<F>>, n: nat) -> bool {
    forall|i: int| 0 <= i < points.len() ==> (#[trigger] points[i])@.len() == n
}

fn expand_all(ys: &[F], m: usize) -> (out: Vec<Vec<F>>)
    ensures
        elts2(out@) == protocol::ood_expanded(elts(ys@), m as nat),
        all_len(out@, m as nat),
{
    let mut out: Vec<Vec<F>> = Vec::new();
    while out.len() < ys.len()
        invariant
            out@.len() <= ys@.len(),
            forall|i: int|
                0 <= i < out@.len() ==> elts(#[trigger] out@[i]@) == protocol::expand_univariate(
                    ys@[i]@,
                    m as nat,
                ),
            forall|i: int| 0 <= i < out@.len() ==> (#[trigger] out@[i])@.len() == m,
        decreases ys@.len() - out@.len(),
    {
        let k = out.len();
        let p = expand_univariate(ys[k], m);
        assert(elts(p@).len() == m);
        out.push(p);
    }
    assert(elts2(out@) =~= protocol::ood_expanded(elts(ys@), m as nat));
    out
}

fn query_points(n: usize, queries: &[usize]) -> (out: Vec<Vec<F>>)
    ensures
        elts2(out@) == protocol::query_points(n as nat, nats(queries@)),
        all_len(out@, n as nat),
{
    let mut out: Vec<Vec<F>> = Vec::new();
    while out.len() < queries.len()
        invariant
            out@.len() <= queries@.len(),
            forall|i: int|
                0 <= i < out@.len() ==> elts(#[trigger] out@[i]@) == protocol::query_point(
                    n as nat,
                    queries@[i] as nat,
                ),
            forall|i: int| 0 <= i < out@.len() ==> (#[trigger] out@[i])@.len() == n,
        decreases queries@.len() - out@.len(),
    {
        let k = out.len();
        let p = query_point(n, queries[k]);
        assert(elts(p@).len() == n);
        out.push(p);
    }
    assert(elts2(out@) =~= protocol::query_points(n as nat, nats(queries@)));
    out
}

fn fold_rows(rows: &Vec<Vec<F>>, point: &[F]) -> (out: Vec<F>)
    requires
        forall|q: int| 0 <= q < rows@.len() ==> (#[trigger] rows@[q])@.len() == pow2(point@.len()),
    ensures
        elts(out@) == protocol::folds(elts2(rows@), elts(point@)),
{
    let mut out: Vec<F> = Vec::new();
    while out.len() < rows.len()
        invariant
            forall|q: int|
                0 <= q < rows@.len() ==> (#[trigger] rows@[q])@.len() == pow2(point@.len()),
            out@.len() <= rows@.len(),
            forall|q: int|
                0 <= q < out@.len() ==> (#[trigger] out@[q])@ == protocol::eval_multilinear(
                    elts(rows@[q]@),
                    elts(point@),
                ),
        decreases rows@.len() - out@.len(),
    {
        let k = out.len();
        assert(rows@[k as int]@.len() == pow2(point@.len()));
        out.push(eval_multilinear(rows[k].as_slice(), point));
    }
    assert(elts(out@) =~= protocol::folds(elts2(rows@), elts(point@)));
    out
}

/// The points of the claims, in order.
fn claims_points(cfg: &Config, d: &Data, ch: &Challenges, given: &[Vec<F>]) -> (out: Vec<Vec<F>>)
    requires
        claims_shaped(*cfg, *d, given@),
        ch.opening_points@.len() == d.openings@.len(),
    ensures
        elts2(out@) == protocol::claims_points(
            *cfg,
            ch.draws(),
            elts2(given@),
            protocol::claim_count(*cfg, d.messages()),
        ),
        all_len(out@, cfg.num_variables as nat),
{
    let ghost draws = ch.draws();
    let ghost g = elts2(given@);
    let mut out: Vec<Vec<F>> = Vec::new();
    let mut i: usize = 0;
    assert(elts2(out@) =~= Seq::<Seq<field::Elt>>::empty());
    while i < cfg.claims.len() && i < d.openings.len()
        invariant
            claims_shaped(*cfg, *d, given@),
            ch.opening_points@.len() == d.openings@.len(),
            draws == ch.draws(),
            g == elts2(given@),
            i <= cfg.claims@.len(),
            i <= d.openings@.len(),
            elts2(out@) == protocol::claims_points(*cfg, draws, g, i as nat),
            all_len(out@, cfg.num_variables as nat),
        decreases cfg.claims@.len() - i,
    {
        let ghost before = out@;
        let ghost points = protocol::claim_points(*cfg, draws, g, i as int);
        let shape = &cfg.claims[i];
        if cfg.given_points {
            let p = copied(given[i].as_slice());
            out.push(p);
            assert(elts2(out@) =~= elts2(before) + points);
        } else {
            let row = expand_univariate(ch.opening_points[i], shape.row_vars);
            let ghost rowm = protocol::expand_univariate(
                draws.opening_points[i as int],
                shape.row_vars as nat,
            );
            assert(elts(row@) == rowm);
            assert(row@.len() == rowm.len());
            let mut j: usize = 0;
            while j < shape.selectors.len()
                invariant
                    j <= shape.selectors@.len(),
                    *shape == cfg.claims@[i as int],
                    !cfg.given_points,
                    points == protocol::claim_points(*cfg, draws, g, i as int),
                    rowm == protocol::expand_univariate(
                        draws.opening_points[i as int],
                        shape.row_vars as nat,
                    ),
                    elts(row@) == rowm,
                    row@.len() == shape.row_vars,
                    forall|k: int|
                        0 <= k < shape.selectors@.len() ==> (
                        #[trigger] shape.selectors@[k])@.len() + shape.row_vars
                            == cfg.num_variables,
                    out@.len() == before.len() + j,
                    forall|k: int| 0 <= k < before.len() ==> out@[k] == before[k],
                    forall|k: int| 0 <= k < j ==> elts(#[trigger] out@[before.len() + k]@)
                        == points[k],
                    all_len(out@, cfg.num_variables as nat),
                decreases shape.selectors@.len() - j,
            {
                let ghost out0 = out@;
                let mut p = copied(shape.selectors[j].as_slice());
                let ghost sel = p@;
                let mut r = copied(row.as_slice());
                p.append(&mut r);
                proof {
                    assert(shape.selectors@[j as int]@.len() + shape.row_vars
                        == cfg.num_variables);
                    assert(elts(p@) =~= points[j as int]);
                }
                out.push(p);
                proof {
                    assert forall|k: int| 0 <= k < j + 1 implies elts(
                        #[trigger] out@[before.len() + k]@,
                    ) == points[k] by {
                        if k < j {
                            assert(out@[before.len() + k] == out0[before.len() + k]);
                        }
                    }
                }
                j = j + 1;
            }
            proof {
                assert(elts2(out@) =~= elts2(before) + points) by {
                    assert forall|k: int| 0 <= k < out@.len() implies elts2(out@)[k] == (elts2(
                        before,
                    ) + points)[k] by {
                        if k >= before.len() {
                            let j0 = k - before.len();
                            assert(elts(out@[before.len() + j0]@) == points[j0]);
                        }
                    }
                }
            }
        }
        i = i + 1;
    }
    out
}

/// The claimed evaluations: the openings', then the out-of-domain answers.
fn claimed_evals(cfg: &Config, d: &Data) -> (out: Vec<F>)
    ensures
        elts(out@) == protocol::claims_evals(
            d.messages(),
            protocol::claim_count(*cfg, d.messages()),
        ) + elts(d.initial_ood_answers@),
{
    let ghost p = d.messages();
    let mut out: Vec<F> = Vec::new();
    let mut i: usize = 0;
    assert(elts(out@) =~= Seq::<field::Elt>::empty());
    while i < cfg.claims.len() && i < d.openings.len()
        invariant
            p == d.messages(),
            i <= cfg.claims@.len(),
            i <= d.openings@.len(),
            elts(out@) == protocol::claims_evals(p, i as nat),
        decreases cfg.claims@.len() - i,
    {
        let ghost before = out@;
        let mut g = copied(d.openings[i].as_slice());
        let ghost gs = g@;
        out.append(&mut g);
        assert(elts(out@) =~= elts(before) + elts(gs));
        i = i + 1;
    }
    let ghost before = out@;
    let mut g = copied(d.initial_ood_answers.as_slice());
    out.append(&mut g);
    assert(elts(out@) =~= elts(before) + elts(d.initial_ood_answers@));
    out
}

/// Round `i`'s opening, checked against the cap before it.
fn check_round(cfg: &Config, d: &Data, ch: &Challenges, i: usize) -> (r: Result<(), Error>)
    requires
        cap_fits(*cfg, *d, *ch, i as nat),
        cfg.rounds@.len() == d.rounds@.len() == ch.rounds@.len(),
        i <= d.rounds@.len(),
    ensures
        match r {
            Ok(_) => round_well_formed(*cfg, *d, *ch, i as nat) && protocol::round_authentic(
                blake3(),
                *cfg,
                d.messages(),
                authentications(*cfg, *d, *ch),
                ch.draws(),
                i as nat,
            ),
            Err(e) => {
                ||| !round_well_formed(*cfg, *d, *ch, i as nat) && e == Error::Opening { round: i }
                ||| round_well_formed(*cfg, *d, *ch, i as nat) && exists|q: usize|
                    e == (Error::Merkle { round: i, query: q }) && #[trigger] first_failure(
                        *cfg,
                        *d,
                        *ch,
                        i as nat,
                        q as int,
                    )
            },
        },
{
    let n = d.rounds.len();
    let cap = if i == 0 {
        d.cap.as_slice()
    } else {
        d.rounds[i - 1].cap.as_slice()
    };
    let (opening, queries, width) = if i < n {
        (&d.rounds[i].opening, ch.rounds[i].queries.as_slice(), cfg.rounds[i].index_width)
    } else {
        (&d.final_opening, ch.final_queries.as_slice(), cfg.final_index_width)
    };
    let ghost auth = authentications(*cfg, *d, *ch)[i as int];
    let ghost p = d.messages();
    proof {
        assert(cap@ == protocol::cap_before(p, i as nat));
        assert(nats(queries@) == protocol::queries_of(ch.draws(), i as nat));
        assert(width == protocol::width_of(*cfg, i as nat));
    }
    let r = check_opening(opening, cap, queries, width, i);
    proof {
        let ok = |q: int|
            protocol::query_authentic(
                blake3(),
                auth.rows,
                auth.paths,
                cap@,
                nats(queries@),
                width as nat,
                q,
            );
        if r is Err && opening_well_formed(*opening, cap@, queries@, width as nat) {
            let e = r->Err_0;
            let q = choose|q: int|
                0 <= q < queries@.len() && e == (Error::Merkle { round: i, query: q as usize })
                    && !(#[trigger] ok(q)) && forall|k: int| 0 <= k < q ==> #[trigger] ok(k);
            let qu = queries.len();
            assert(q as usize as int == q);
            assert(first_failure(*cfg, *d, *ch, i as nat, (q as usize) as int));
        }
    }
    r
}

/// The commitment's constraint, and the claim after the initial sumcheck.
fn initial_part(cfg: &Config, d: &Data, ch: &Challenges, given: &[Vec<F>]) -> (r: (Constraint, F))
    requires
        claims_shaped(*cfg, *d, given@),
        challenges_shaped(*cfg, *d, *ch),
    ensures
        r.0.model() == protocol::initial_constraint(
            *cfg,
            d.messages(),
            ch.draws(),
            elts2(given@),
        ),
        r.0.shaped(),
        r.1@ == protocol::claim_after(*cfg, d.messages(), ch.draws(), 0),
{
    let ghost p = d.messages();
    let ghost draws = ch.draws();
    let mut eq_points = claims_points(cfg, d, ch, given);
    let ghost claim_pts = eq_points@;
    let mut ood = expand_all(ch.initial_ood_points.as_slice(), cfg.num_variables);
    let ghost ood_pts = ood@;
    eq_points.append(&mut ood);
    let first = Constraint {
        challenge: ch.alpha,
        num_variables: cfg.num_variables,
        initial_power: 0,
        eq_points,
        direct_points: Vec::new(),
    };
    proof {
        assert(elts2(first.eq_points@) =~= elts2(claim_pts) + elts2(ood_pts));
        assert(first.model().direct_points =~= Seq::<Seq<field::Elt>>::empty());
    }
    let evals = claimed_evals(cfg, d);
    let claimed = combine_into(F::zero(), ch.alpha, 0, evals.as_slice());
    (
        first,
        sumcheck_claim(claimed, d.initial_sumcheck.as_slice(), ch.initial_folding.as_slice()),
    )
}

/// The folding randomness before round `i`, reversed.
fn reversed_folding(d: &Data, ch: &Challenges, i: usize, Ghost(cfg): Ghost<Config>) -> (rev: Vec<F>)
    requires
        challenges_shaped(cfg, *d, *ch),
        i <= d.rounds@.len(),
    ensures
        elts(rev@) == protocol::reversed(protocol::folding_before(ch.draws(), i as nat)),
        rev@.len() == folding_len(*d, i as nat),
{
    if i == 0 {
        reversed(ch.initial_folding.as_slice())
    } else {
        assert(round_shaped(cfg.rounds@[i - 1], d.rounds@[i - 1], ch.rounds@[i - 1]));
        reversed(ch.rounds[i - 1].folding.as_slice())
    }
}

/// The claim after round `i`, and the round's constraint.
fn round_part(cfg: &Config, d: &Data, ch: &Challenges, i: usize, claimed: F) -> (r: (F, Constraint))
    requires
        forall|q: int|
            0 <= q < opening_at(*d, i as nat).rows@.len() ==> #[trigger] row_fits(
                *d,
                i as nat,
                q,
            ),
        challenges_shaped(*cfg, *d, *ch),
        cfg.rounds@.len() == d.rounds@.len(),
        i < d.rounds@.len(),
        claimed@ == protocol::claim_after(*cfg, d.messages(), ch.draws(), i as nat),
    ensures
        r.0@ == protocol::claim_after(*cfg, d.messages(), ch.draws(), (i + 1) as nat),
        r.1.model() == protocol::round_constraint(*cfg, ch.draws(), i as int),
        r.1.shaped(),
{
    let ghost p = d.messages();
    let ghost draws = ch.draws();
    let rc = &cfg.rounds[i];
    let rd = &d.rounds[i];
    let rch = &ch.rounds[i];
    assert(round_shaped(cfg.rounds@[i as int], d.rounds@[i as int], ch.rounds@[i as int]));
    let rev = reversed_folding(d, ch, i, Ghost(*cfg));
    proof {
        assert forall|q: int| 0 <= q < rd.opening.rows@.len() implies (
        #[trigger] rd.opening.rows@[q])@.len() == pow2(rev@.len()) by {
            assert(row_fits(*d, i as nat, q));
        }
    }
    let mut folds = fold_rows(&rd.opening.rows, rev.as_slice());
    let direct_points = query_points(rc.num_variables, rch.queries.as_slice());
    let ood = expand_all(rch.ood_points.as_slice(), rc.num_variables);
    let mut evals = copied(rd.ood_answers.as_slice());
    let ghost fs = elts(folds@);
    let ghost answers = elts(rd.ood_answers@);
    evals.append(&mut folds);
    proof {
        assert(elts(evals@) =~= answers + fs);
        protocol::lemma_combine_concat(claimed@, rch.combination@, 1, answers, fs);
    }
    let combined = combine_into(claimed, rch.combination, 1, evals.as_slice());
    let after = sumcheck_claim(combined, rd.sumcheck.as_slice(), rch.folding.as_slice());
    proof {
        assert(p.rounds[i as int] == rd.messages());
        assert(draws.rounds[i as int] == rch.draws());
    }
    (
        after,
        Constraint {
            challenge: rch.combination,
            num_variables: rc.num_variables,
            initial_power: 1,
            eq_points: ood,
            direct_points,
        },
    )
}

/// The opened rows have the size that their folding point asks for.
pub open spec fn shaped_rows(d: Data) -> bool {
    forall|i: nat, q: int|
        i <= d.rounds@.len() && 0 <= q < opening_at(d, i).rows@.len() ==> (#[trigger] opening_at(
            d,
            i,
        ).rows@[q])@.len() == pow2(folding_len(d, i))
}

/// The final queries against the final polynomial.
fn check_final_queries(cfg: &Config, d: &Data, ch: &Challenges) -> (r: Result<(), Error>)
    requires
        challenges_shaped(*cfg, *d, *ch),
        ch.final_queries@.len() > 0 ==> d.final_poly@.len() == pow2(
            protocol::log2(d.final_poly@.len()),
        ),
        forall|q: int|
            0 <= q < ch.final_queries@.len() && finals_agree(*d, *ch, q) ==> #[trigger] row_fits(
                *d,
                d.rounds@.len(),
                q,
            ),
        d.final_opening.rows@.len() == ch.final_queries@.len(),
    ensures
        match r {
            Ok(_) => forall|q: int|
                0 <= q < ch.final_queries@.len() ==> #[trigger] protocol::final_query_ok(
                    d.messages(),
                    ch.draws(),
                    q,
                ),
            Err(e) => e is FinalStir && e->FinalStir_query < ch.final_queries@.len()
                && !protocol::final_query_ok(d.messages(), ch.draws(), e->FinalStir_query as int)
                && forall|q: int|
                0 <= q < e->FinalStir_query ==> #[trigger] protocol::final_query_ok(
                    d.messages(),
                    ch.draws(),
                    q,
                ),
        },
{
    let n = d.rounds.len();
    let ghost p = d.messages();
    let ghost draws = ch.draws();
    let rev = reversed_folding(d, ch, n, Ghost(*cfg));
    if ch.final_queries.len() == 0 {
        return Ok(());
    }
    proof {
        vstd::arithmetic::power2::lemma_pow2_pos(protocol::log2(d.final_poly@.len()));
    }
    let final_vars = floor_log2(d.final_poly.len());
    let mut query: usize = 0;
    while query < ch.final_queries.len()
        invariant
            query <= ch.final_queries@.len(),
            n == d.rounds@.len() == draws.rounds.len(),
            forall|q: int|
                0 <= q < ch.final_queries@.len() && finals_agree(*d, *ch, q)
                    ==> #[trigger] row_fits(*d, n as nat, q),
            p == d.messages(),
            draws == ch.draws(),
            elts(rev@) == protocol::reversed(protocol::folding_before(draws, n as nat)),
            rev@.len() == folding_len(*d, n as nat),
            final_vars == protocol::log2(d.final_poly@.len()),
            d.final_poly@.len() == pow2(final_vars as nat),
            d.final_opening.rows@.len() == ch.final_queries@.len(),
            forall|q: int| 0 <= q < query ==> #[trigger] protocol::final_query_ok(p, draws, q),
        decreases ch.final_queries@.len() - query,
    {
        proof {
            assert(finals_agree(*d, *ch, query as int));
            assert(row_fits(*d, n as nat, query as int));
        }
        let fold = eval_multilinear(d.final_opening.rows[query].as_slice(), rev.as_slice());
        let point = query_point(final_vars, ch.final_queries[query]);
        assert(elts(point@).len() == final_vars);
        let at = eval_coefficients(d.final_poly.as_slice(), point.as_slice());
        if at != fold {
            proof {
                if at@ == fold@ {
                    field::lemma_f_injective(at, fold);
                }
                assert(!protocol::final_query_ok(p, draws, query as int));
            }
            return Err(Error::FinalStir { query });
        }
        assert(protocol::final_query_ok(p, draws, query as int));
        query = query + 1;
    }
    Ok(())
}

/// The weights of all the constraints.
fn total_weight(
    first: &Constraint,
    constraints: &Vec<Constraint>,
    rev: &[F],
    Ghost(given): Ghost<Seq<Seq<field::Elt>>>,
    Ghost(cfg): Ghost<Config>,
    Ghost(p): Ghost<ProofM>,
    Ghost(draws): Ghost<Draws>,
) -> (w: F)
    requires
        first.model() == protocol::initial_constraint(cfg, p, draws, given),
        first.shaped(),
        first.num_variables <= rev@.len(),
        forall|j: int|
            0 <= j < constraints@.len() ==> {
                &&& (#[trigger] constraints@[j]).model() == protocol::round_constraint(
                    cfg,
                    draws,
                    j,
                )
                &&& constraints@[j].shaped()
                &&& constraints@[j].num_variables <= rev@.len()
            },
    ensures
        w@ == protocol::weights(cfg, p, draws, given, elts(rev@), constraints@.len()),
{
    let w0 = constraint_weight(first, rev);
    let mut total = F::zero().plus(w0);
    let mut k: usize = 0;
    while k < constraints.len()
        invariant
            k <= constraints@.len(),
            forall|j: int|
                0 <= j < constraints@.len() ==> {
                    &&& (#[trigger] constraints@[j]).model() == protocol::round_constraint(
                        cfg,
                        draws,
                        j,
                    )
                    &&& constraints@[j].shaped()
                    &&& constraints@[j].num_variables <= rev@.len()
                },
            total@ == protocol::weights(cfg, p, draws, given, elts(rev@), k as nat),
        decreases constraints@.len() - k,
    {
        let c = &constraints[k];
        assert(c.model() == protocol::round_constraint(cfg, draws, k as int));
        total = total.plus(constraint_weight(c, rev));
        k = k + 1;
    }
    total
}

/// The arithmetic after the transcript, with the claims' points given where
/// the configuration says so.
#[verifier::rlimit(30)]
pub fn verify_with(cfg: &Config, d: &Data, ch: Challenges, given: &[Vec<F>]) -> (r: Result<
    Verified,
    Error,
>)
    requires
        verifiable(*cfg, *d, ch, given@),
        challenges_shaped(*cfg, *d, ch),
    ensures
        verdict(*cfg, *d, ch, elts2(given@), r),
{
    let ghost p = d.messages();
    let ghost draws = ch.draws();
    let ghost g = elts2(given@);
    let ghost auth = authentications(*cfg, *d, ch);
    let ghost sound = |i: nat|
        round_well_formed(*cfg, *d, ch, i) && protocol::round_authentic(
            blake3(),
            *cfg,
            p,
            auth,
            draws,
            i,
        );
    if !ch.pow_ok {
        return Err(Error::Pow);
    }
    let n = d.rounds.len();
    let (first, mut claimed) = initial_part(cfg, d, &ch, given);
    let mut constraints: Vec<Constraint> = Vec::new();
    let mut randomness = copied(ch.initial_folding.as_slice());
    let mut i: usize = 0;
    while i < n
        invariant
            i <= n == d.rounds@.len(),
            verifiable(*cfg, *d, ch, given@),
            challenges_shaped(*cfg, *d, ch),
            p == d.messages(),
            draws == ch.draws(),
            g == elts2(given@),
            draws.pow_ok,
            auth == authentications(*cfg, *d, ch),
            sound == (|i: nat|
                round_well_formed(*cfg, *d, ch, i) && protocol::round_authentic(
                    blake3(),
                    *cfg,
                    p,
                    auth,
                    draws,
                    i,
                )),
            forall|j: nat| j < i ==> #[trigger] sound(j),
            opened_before(*cfg, *d, ch, i as nat),
            claimed@ == protocol::claim_after(*cfg, p, draws, i as nat),
            elts(randomness@) == protocol::randomness_after(draws, i as nat),
            randomness@.len() == randomness_len(*d, i as nat),
            constraints@.len() == i,
            forall|j: int|
                0 <= j < i ==> (#[trigger] constraints@[j]).model() == protocol::round_constraint(
                    *cfg,
                    draws,
                    j,
                ) && constraints@[j].shaped(),
        decreases n - i,
    {
        match check_round(cfg, d, &ch, i) {
            Ok(_) => {},
            Err(e) => {
                return Err(e);
            },
        }
        proof {
            assert(round_sound(*cfg, *d, ch, i as nat));
            assert(sound(i as nat));
            assert(opened_before(*cfg, *d, ch, (i + 1) as nat));
        }
        let (after, c) = round_part(cfg, d, &ch, i, claimed);
        claimed = after;
        constraints.push(c);
        assert(round_shaped(cfg.rounds@[i as int], d.rounds@[i as int], ch.rounds@[i as int]));
        let ghost before = randomness@;
        let mut more = copied(ch.rounds[i].folding.as_slice());
        randomness.append(&mut more);
        assert(elts(randomness@) =~= elts(before) + draws.rounds[i as int].folding);
        i = i + 1;
    }
    match check_round(cfg, d, &ch, n) {
        Ok(_) => {},
        Err(e) => {
            return Err(e);
        },
    }
    proof {
        assert(round_sound(*cfg, *d, ch, n as nat));
        assert(sound(n as nat));
        assert(opened_before(*cfg, *d, ch, (n + 1) as nat));
        assert forall|j: nat| j <= n implies #[trigger] round_well_formed(*cfg, *d, ch, j) by {
            assert(sound(j));
        }
        assert forall|j: nat| j <= n implies #[trigger] protocol::round_authentic(
            blake3(),
            *cfg,
            p,
            auth,
            draws,
            j,
        ) by {
            assert(sound(j));
        }
    }
    match check_final_queries(cfg, d, &ch) {
        Ok(_) => {},
        Err(e) => {
            return Err(e);
        },
    }
    assert(finals_agree(*d, ch, ch.final_queries@.len() as int));
    assert(closes_fit(*cfg, *d));
    claimed = sumcheck_claim(claimed, d.final_sumcheck.as_slice(), ch.final_folding.as_slice());
    let ghost before = randomness@;
    let mut more = copied(ch.final_folding.as_slice());
    randomness.append(&mut more);
    assert(elts(randomness@) =~= elts(before) + draws.final_folding);
    let rev_all = reversed(randomness.as_slice());
    proof {
        assert forall|j: int| 0 <= j < n implies (#[trigger] constraints@[j]).num_variables
            <= rev_all@.len() by {
            assert(constraints@[j].model().arity == cfg.rounds@[j].num_variables);
        }
        assert(first.model().arity == cfg.num_variables);
    }
    let weights = total_weight(
        &first,
        &constraints,
        rev_all.as_slice(),
        Ghost(g),
        Ghost(*cfg),
        Ghost(p),
        Ghost(draws),
    );
    let final_rev = reversed(ch.final_folding.as_slice());
    let final_value = eval_multilinear(d.final_poly.as_slice(), final_rev.as_slice());
    let expected = weights.times(final_value);
    if claimed != expected {
        return Err(Error::Closing { claimed: claimed.to_repr(), expected: expected.to_repr() });
    }
    Ok(Verified { challenges: ch, claimed, weights, final_value })
}

/// The verifier: the transcript, then the arithmetic.
pub fn verify(cfg: &Config, d: &Data) -> (r: Result<Verified, Error>)
    requires
        !cfg.given_points,
        transcript_verifiable(*cfg, *d),
    ensures
        exists|ch: Challenges|
            ch.draws() == transcript_draws(*cfg, *d) && challenges_shaped(*cfg, *d, ch)
                && #[trigger] verdict(*cfg, *d, ch, Seq::empty(), r),
{
    let mut s = Challenger::new();
    let ch = transcript(cfg, d, &mut s);
    let given: Vec<Vec<F>> = Vec::new();
    assert(given@ =~= Seq::<Vec<F>>::empty());
    assert(verifiable(*cfg, *d, ch, Seq::empty()));
    let r = verify_with(cfg, d, ch, given.as_slice());
    assert(elts2(given@) =~= Seq::<Seq<field::Elt>>::empty());
    r
}

/// What the Blake3 challenger draws on a proof.
pub open spec fn transcript_draws(cfg: Config, d: Data) -> Draws {
    let m = protocol::hash_machine(blake3());
    let p = d.messages();
    protocol::transcript(
        m,
        protocol::absorb_commitment(m, protocol::empty_buffers(), p),
        cfg,
        p,
    ).1
}

} // verus!

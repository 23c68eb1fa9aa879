//! The WHIR verifier in plain integers: the transcript it runs and the
//! arithmetic on what it draws.
//!
//! The transcript is layered: the commitment, each out-of-domain virtual claim,
//! each opening claim, the WHIR run, the batching draw and every sumcheck run as
//! their own sub-transcript, and each seeds the sponge with its domain separator,
//! a constant of the configuration, before its first interaction. The order:
//!
//!   1. the commitment seed, then the root;
//!   2. per commitment out-of-domain sample: its seed, draw the point, absorb the
//!      answer;
//!   3. per opening claim: its seed, draw the point, absorb the evaluations;
//!   4. the WHIR seed, the batching seed, draw the batching randomness;
//!   5. the initial sumcheck: its seed, then per round absorb `[c0, c_inf]`, proof
//!      of work, draw;
//!   6. per intermediate round: absorb the root; per out-of-domain sample draw and
//!      absorb; proof of work; the queries, a fixed number of uniform draws
//!      (every position when the domain is no larger), duplicates kept, in draw
//!      order; draw the combination randomness; the round's sumcheck as in 5;
//!   7. absorb the final polynomial; proof of work; the final queries; the final
//!      sumcheck as in 5.
use super::schedule;
use super::sponge;
use super::sponge::Duplex;
use crate::poseidon2::constants::P;
use crate::poseidon2::ext4;
use crate::poseidon2::ext4::Quad;
use vstd::arithmetic::power2::pow2;
use vstd::prelude::*;

pub use super::arith::{
    base_pow, closing_sum, combine_answers, constraint_eval, constraint_eval_batched, eq_eval,
    eval_multilinear, expand_univariate, extrapolate_01inf, horner, lagrange_weights_01inf,
    select_eval, sumcheck_round, EF_ONE,
};
pub use super::sponge::{
    duplexing, sample_bits, squeeze, sumcheck_round_fs, Challenger, Sponge,
    MAX_SINGLE_SAMPLE_BITS, RATE,
};
pub use super::verify::{
    verify, ClaimShape, Opening, RoundMath, Verified, VerifyConfig, VerifyData, VerifyError,
};

verus! {

/// One intermediate round's public parameters, as the transcript needs them.
#[derive(Clone, Debug)]
pub struct RoundConfig {
    pub ood_samples: usize,
    pub pow_bits: usize,
    pub num_queries: usize,
    /// log2 of the folded domain the queries index.
    pub domain_bits: usize,
    /// Sumcheck rounds after this round's commitment: the next folding factor.
    pub folding: usize,
    pub folding_pow_bits: usize,
}

/// The public parameters that shape the transcript.
#[derive(Clone, Debug)]
pub struct TranscriptConfig {
    pub commitment_ood_samples: usize,
    pub initial_folding: usize,
    pub initial_folding_pow_bits: usize,
    pub rounds: Vec<RoundConfig>,
    pub final_pow_bits: usize,
    pub final_queries: usize,
    pub final_domain_bits: usize,
    pub final_sumcheck_rounds: usize,
    pub final_folding_pow_bits: usize,
}

/// One sumcheck round as sent: `[c0, c_inf]` and, with proof of work, a witness.
#[derive(Clone, Debug)]
pub struct SumcheckRoundData {
    pub poly: [[u32; 4]; 2],
    pub pow_witness: u32,
}

/// One intermediate round's prover messages.
#[derive(Clone, Debug)]
pub struct RoundData {
    /// The Merkle cap, every root's eight elements in order.
    pub root: Vec<u32>,
    pub ood_answers: Vec<[u32; 4]>,
    pub pow_witness: u32,
    /// The round's sumcheck's seed.
    pub seed_sumcheck: Vec<u32>,
    pub sumcheck: Vec<SumcheckRoundData>,
}

/// Everything the transcript absorbs: the sub-transcripts' seeds and the
/// prover's messages.
#[derive(Clone, Debug)]
pub struct TranscriptData {
    pub seed_commitment: Vec<u32>,
    /// One per commitment out-of-domain sample.
    pub seed_virtual: Vec<Vec<u32>>,
    /// One per opening claim.
    pub seed_claim: Vec<Vec<u32>>,
    pub seed_whir: Vec<u32>,
    pub seed_batching: Vec<u32>,
    pub seed_initial_sumcheck: Vec<u32>,
    pub seed_final_sumcheck: Vec<u32>,
    pub root: Vec<u32>,
    pub initial_ood_answers: Vec<[u32; 4]>,
    /// Per opening claim, the evaluations in the order they are absorbed.
    pub openings: Vec<Vec<[u32; 4]>>,
    pub initial_sumcheck: Vec<SumcheckRoundData>,
    pub rounds: Vec<RoundData>,
    pub final_poly: Vec<[u32; 4]>,
    pub final_pow_witness: u32,
    pub final_sumcheck: Vec<SumcheckRoundData>,
}

/// The challenges one intermediate round draws.
#[derive(Clone, Debug, PartialEq, Eq)]
pub struct RoundChallenges {
    pub ood_points: Vec<[u32; 4]>,
    /// In draw order, duplicates kept, as the verifier consumes them.
    pub queries: Vec<u32>,
    pub combination: [u32; 4],
    pub folding: Vec<[u32; 4]>,
}

/// Every challenge the verifier draws, in draw order.
#[derive(Clone, Debug, PartialEq, Eq)]
pub struct Challenges {
    pub initial_ood_points: Vec<[u32; 4]>,
    pub opening_points: Vec<[u32; 4]>,
    pub alpha: [u32; 4],
    pub initial_folding: Vec<[u32; 4]>,
    pub rounds: Vec<RoundChallenges>,
    pub final_queries: Vec<u32>,
    pub final_folding: Vec<[u32; 4]>,
    /// Whether every proof-of-work witness passed.
    pub pow_ok: bool,
}

// ---------------------------------------------------------------------------
// The transcript over the duplex sponge as mathematics.
// ---------------------------------------------------------------------------

/// What an intermediate round draws.
pub struct RoundDraws {
    pub ood_points: Seq<Quad>,
    pub queries: Seq<int>,
    pub combination: Quad,
    pub folding: Seq<Quad>,
    pub pow_ok: bool,
}

/// What the transcript draws.
pub struct Draws {
    pub initial_ood_points: Seq<Quad>,
    pub opening_points: Seq<Quad>,
    pub alpha: Quad,
    pub initial_folding: Seq<Quad>,
    pub rounds: Seq<RoundDraws>,
    pub final_queries: Seq<int>,
    pub final_folding: Seq<Quad>,
    pub pow_ok: bool,
}

/// Query positions as integers.
pub open spec fn ints(s: Seq<u32>) -> Seq<int> {
    Seq::new(s.len(), |i: int| s[i] as int)
}

/// The first `k` out-of-domain claims: each seed, a point, the answer.
pub open spec fn virtual_claims(
    d: Duplex,
    seeds: Seq<Vec<u32>>,
    answers: Seq<[u32; 4]>,
    k: nat,
) -> (Duplex, Seq<Quad>)
    decreases k,
{
    if k == 0 {
        (d, Seq::empty())
    } else {
        let (e, points) = virtual_claims(d, seeds, answers, (k - 1) as nat);
        let (f, point) = sponge::sampled_quad(sponge::observed_all(e, seeds[k - 1]@));
        (sponge::observed_quad(f, answers[k - 1]@), points.push(point))
    }
}

/// The first `k` opening claims: each seed, a point, the evaluations.
pub open spec fn opening_claims(
    d: Duplex,
    seeds: Seq<Vec<u32>>,
    openings: Seq<Vec<[u32; 4]>>,
    k: nat,
) -> (Duplex, Seq<Quad>)
    decreases k,
{
    if k == 0 {
        (d, Seq::empty())
    } else {
        let (e, points) = opening_claims(d, seeds, openings, (k - 1) as nat);
        let (f, point) = sponge::sampled_quad(sponge::observed_all(e, seeds[k - 1]@));
        (sponge::observed_quads(f, openings[k - 1]@), points.push(point))
    }
}

/// The first `k` sumcheck rounds: both coefficients, proof of work, a challenge.
pub open spec fn sumchecks(
    d: Duplex,
    rounds: Seq<SumcheckRoundData>,
    pow_bits: nat,
    k: nat,
) -> (Duplex, Seq<Quad>, bool)
    decreases k,
{
    if k == 0 {
        (d, Seq::empty(), true)
    } else {
        let (e, rs, ok) = sumchecks(d, rounds, pow_bits, (k - 1) as nat);
        let r = rounds[k - 1];
        let f = sponge::observed_quad(sponge::observed_quad(e, r.poly@[0]@), r.poly@[1]@);
        let (g, here) = sponge::worked(f, pow_bits, r.pow_witness as int);
        let (h, x) = sponge::sampled_quad(g);
        (h, rs.push(x), ok && here)
    }
}

/// The first `k` out-of-domain samples of a round: a point, the answer.
pub open spec fn ood_samples(d: Duplex, answers: Seq<[u32; 4]>, k: nat) -> (Duplex, Seq<Quad>)
    decreases k,
{
    if k == 0 {
        (d, Seq::empty())
    } else {
        let (e, points) = ood_samples(d, answers, (k - 1) as nat);
        let (f, point) = sponge::sampled_quad(e);
        (sponge::observed_quad(f, answers[k - 1]@), points.push(point))
    }
}

/// `k` uniform draws of `bits` bits.
pub open spec fn uniform_draws(d: Duplex, bits: nat, k: nat) -> (Duplex, Seq<int>)
    decreases k,
{
    if k == 0 {
        (d, Seq::empty())
    } else {
        let (e, qs) = uniform_draws(d, bits, (k - 1) as nat);
        let (f, q) = sponge::drawn_bits(e, bits);
        (f, qs.push(q))
    }
}

/// The query positions: `n` uniform draws in draw order, duplicates kept; every
/// position, with no draw at all, when the domain is no larger than that.
pub open spec fn queries(d: Duplex, bits: nat, n: nat) -> (Duplex, Seq<int>) {
    if n >= pow2(bits) {
        (d, Seq::new(pow2(bits), |i: int| i))
    } else {
        uniform_draws(d, bits, n)
    }
}

/// One intermediate round.
pub open spec fn round(d: Duplex, rc: RoundConfig, rd: RoundData) -> (Duplex, RoundDraws) {
    let (e, ood_points) = ood_samples(
        sponge::observed_all(d, rd.root@),
        rd.ood_answers@,
        rd.ood_answers@.len(),
    );
    let (f, worked) = sponge::worked(e, rc.pow_bits as nat, rd.pow_witness as int);
    let (g, qs) = queries(f, rc.domain_bits as nat, rc.num_queries as nat);
    let (h, combination) = sponge::sampled_quad(g);
    let (i, folding, ok) = sumchecks(
        sponge::observed_all(h, rd.seed_sumcheck@),
        rd.sumcheck@,
        rc.folding_pow_bits as nat,
        rd.sumcheck@.len(),
    );
    (i, RoundDraws { ood_points, queries: qs, combination, folding, pow_ok: worked && ok })
}

/// The first `k` intermediate rounds.
pub open spec fn rounds(
    d: Duplex,
    cfgs: Seq<RoundConfig>,
    data: Seq<RoundData>,
    k: nat,
) -> (Duplex, Seq<RoundDraws>, bool)
    decreases k,
{
    if k == 0 {
        (d, Seq::empty(), true)
    } else {
        let (e, rs, ok) = rounds(d, cfgs, data, (k - 1) as nat);
        let (f, r) = round(e, cfgs[k - 1], data[k - 1]);
        (f, rs.push(r), ok && r.pow_ok)
    }
}

/// The sponge and the draws up to the batching randomness.
pub open spec fn opening_phase(data: TranscriptData, d: Duplex) -> (Duplex, Seq<Quad>, Seq<Quad>, Quad) {
    let start = sponge::observed_all(
        sponge::observed_all(d, data.seed_commitment@),
        data.root@,
    );
    let (e, ood) = virtual_claims(
        start,
        data.seed_virtual@,
        data.initial_ood_answers@,
        data.initial_ood_answers@.len(),
    );
    let (f, claims) = opening_claims(
        e,
        data.seed_claim@,
        data.openings@,
        data.openings@.len(),
    );
    let (g, alpha) = sponge::sampled_quad(
        sponge::observed_all(
            sponge::observed_all(f, data.seed_whir@),
            data.seed_batching@,
        ),
    );
    (g, ood, claims, alpha)
}

/// The draws after the rounds.
pub open spec fn final_phase(
    cfg: TranscriptConfig,
    data: TranscriptData,
    d: Duplex,
) -> (Duplex, Seq<int>, Seq<Quad>, bool) {
    let (e, worked) = sponge::worked(
        sponge::observed_quads(d, data.final_poly@),
        cfg.final_pow_bits as nat,
        data.final_pow_witness as int,
    );
    let (f, qs) = queries(e, cfg.final_domain_bits as nat, cfg.final_queries as nat);
    let (g, folding, ok) = sumchecks(
        sponge::observed_all(f, data.seed_final_sumcheck@),
        data.final_sumcheck@,
        cfg.final_folding_pow_bits as nat,
        data.final_sumcheck@.len(),
    );
    (g, qs, folding, worked && ok)
}

/// The whole transcript from a duplex sponge: where the sponge ends and what is drawn.
pub open spec fn run(cfg: TranscriptConfig, data: TranscriptData, d: Duplex) -> (Duplex, Draws) {
    let (g, ood, claims, alpha) = opening_phase(data, d);
    let (h, folding, first) = sumchecks(
        sponge::observed_all(g, data.seed_initial_sumcheck@),
        data.initial_sumcheck@,
        cfg.initial_folding_pow_bits as nat,
        data.initial_sumcheck@.len(),
    );
    let (i, rs, middle) = rounds(h, cfg.rounds@, data.rounds@, cfg.rounds@.len());
    let (j, qs, last_folding, last) = final_phase(cfg, data, i);
    (
        j,
        Draws {
            initial_ood_points: ood,
            opening_points: claims,
            alpha,
            initial_folding: folding,
            rounds: rs,
            final_queries: qs,
            final_folding: last_folding,
            pow_ok: first && middle && last,
        },
    )
}

/// A query block that can be drawn: positions are 32-bit words.
pub open spec fn drawable(bits: usize, n: usize) -> bool {
    &&& bits <= 32
    &&& n >= pow2(bits as nat) ==> bits < 32
}

/// A round's parameters and messages fit each other.
pub open spec fn round_fits(rc: RoundConfig, rd: RoundData) -> bool {
    &&& rd.ood_answers@.len() == rc.ood_samples
    &&& rd.sumcheck@.len() == rc.folding
    &&& pow2(rc.pow_bits as nat) < P
    &&& pow2(rc.folding_pow_bits as nat) < P
    &&& drawable(rc.domain_bits, rc.num_queries)
}

/// The parameters and messages fit each other.
pub open spec fn fits(cfg: TranscriptConfig, data: TranscriptData) -> bool {
    &&& data.initial_ood_answers@.len() == cfg.commitment_ood_samples
    &&& data.seed_virtual@.len() == data.initial_ood_answers@.len()
    &&& data.seed_claim@.len() == data.openings@.len()
    &&& data.initial_sumcheck@.len() == cfg.initial_folding
    &&& pow2(cfg.initial_folding_pow_bits as nat) < P
    &&& data.rounds@.len() == cfg.rounds@.len()
    &&& forall|i: int|
        0 <= i < cfg.rounds@.len() ==> round_fits(#[trigger] cfg.rounds@[i], data.rounds@[i])
    &&& data.final_sumcheck@.len() == cfg.final_sumcheck_rounds
    &&& pow2(cfg.final_pow_bits as nat) < P
    &&& pow2(cfg.final_folding_pow_bits as nat) < P
    &&& drawable(cfg.final_domain_bits, cfg.final_queries)
}

impl RoundChallenges {
    /// They are the draws `r`.
    pub open spec fn are(&self, r: RoundDraws) -> bool {
        &&& ext4::quads(self.ood_points@) == r.ood_points
        &&& ints(self.queries@) == r.queries
        &&& ext4::quad(self.combination@) == r.combination
        &&& ext4::quads(self.folding@) == r.folding
    }
}

impl Challenges {
    /// They are the draws `r`.
    pub open spec fn are(&self, r: Draws) -> bool {
        &&& ext4::quads(self.initial_ood_points@) == r.initial_ood_points
        &&& ext4::quads(self.opening_points@) == r.opening_points
        &&& ext4::quad(self.alpha@) == r.alpha
        &&& ext4::quads(self.initial_folding@) == r.initial_folding
        &&& self.rounds@.len() == r.rounds.len()
        &&& forall|i: int|
            0 <= i < self.rounds@.len() ==> (#[trigger] self.rounds@[i]).are(r.rounds[i])
        &&& ints(self.final_queries@) == r.final_queries
        &&& ext4::quads(self.final_folding@) == r.final_folding
        &&& self.pow_ok == r.pow_ok
    }
}

// ---------------------------------------------------------------------------
// A draw that never ends shows at the end.
// ---------------------------------------------------------------------------

broadcast use {
    sponge::lemma_observed,
    sponge::lemma_sampled,
    sponge::lemma_observed_all,
    sponge::lemma_observed_quad,
    sponge::lemma_observed_quads,
    sponge::lemma_sampled_quad,
    sponge::lemma_worked,
    sponge::lemma_drawn_bits,
    sponge::group_machine,
};

pub proof fn lemma_virtual(d: Duplex, seeds: Seq<Vec<u32>>, answers: Seq<[u32; 4]>, k: nat)
    requires
        sponge::wf(d),
    ensures
        sponge::wf(virtual_claims(d, seeds, answers, k).0),
        virtual_claims(d, seeds, answers, k).0.stuck == d.stuck,
        virtual_claims(d, seeds, answers, k).1.len() == k,
    decreases k,
{
    if k > 0 {
        lemma_virtual(d, seeds, answers, (k - 1) as nat);
    }
}

pub proof fn lemma_claims(d: Duplex, seeds: Seq<Vec<u32>>, openings: Seq<Vec<[u32; 4]>>, k: nat)
    requires
        sponge::wf(d),
    ensures
        sponge::wf(opening_claims(d, seeds, openings, k).0),
        opening_claims(d, seeds, openings, k).0.stuck == d.stuck,
        opening_claims(d, seeds, openings, k).1.len() == k,
    decreases k,
{
    if k > 0 {
        lemma_claims(d, seeds, openings, (k - 1) as nat);
    }
}

pub proof fn lemma_sumchecks(d: Duplex, rs: Seq<SumcheckRoundData>, bits: nat, k: nat)
    requires
        sponge::wf(d),
    ensures
        sponge::wf(sumchecks(d, rs, bits, k).0),
        sumchecks(d, rs, bits, k).0.stuck == d.stuck,
        sumchecks(d, rs, bits, k).1.len() == k,
    decreases k,
{
    if k > 0 {
        lemma_sumchecks(d, rs, bits, (k - 1) as nat);
    }
}

pub proof fn lemma_ood(d: Duplex, answers: Seq<[u32; 4]>, k: nat)
    requires
        sponge::wf(d),
    ensures
        sponge::wf(ood_samples(d, answers, k).0),
        ood_samples(d, answers, k).0.stuck == d.stuck,
        ood_samples(d, answers, k).1.len() == k,
    decreases k,
{
    if k > 0 {
        lemma_ood(d, answers, (k - 1) as nat);
    }
}

pub proof fn lemma_uniform(d: Duplex, bits: nat, k: nat, n: nat)
    requires
        sponge::wf(d),
        k <= n,
    ensures
        sponge::wf(uniform_draws(d, bits, n).0),
        uniform_draws(d, bits, k).0.stuck ==> uniform_draws(d, bits, n).0.stuck,
        d.stuck ==> uniform_draws(d, bits, n).0.stuck,
        uniform_draws(d, bits, n).1.len() == n,
        forall|i: int|
            0 <= i < n ==> 0 <= #[trigger] uniform_draws(d, bits, n).1[i] < pow2(bits),
    decreases n,
{
    if n > 0 {
        if k < n {
            lemma_uniform(d, bits, k, (n - 1) as nat);
        } else {
            lemma_uniform(d, bits, (n - 1) as nat, (n - 1) as nat);
        }
    }
}

/// Query positions lie in the domain.
pub proof fn law_queries_in_range(d: Duplex, bits: nat, n: nat)
    requires
        sponge::wf(d),
    ensures
        sponge::wf(queries(d, bits, n).0),
        d.stuck ==> queries(d, bits, n).0.stuck,
        queries(d, bits, n).1.len() == (if n >= pow2(bits) {
            pow2(bits)
        } else {
            n
        }),
        forall|i: int|
            0 <= i < queries(d, bits, n).1.len() ==> 0 <= #[trigger] queries(d, bits, n).1[i]
                < pow2(bits),
{
    lemma_uniform(d, bits, 0, n);
}

pub proof fn lemma_round(d: Duplex, rc: RoundConfig, rd: RoundData)
    requires
        sponge::wf(d),
    ensures
        sponge::wf(round(d, rc, rd).0),
        d.stuck ==> round(d, rc, rd).0.stuck,
{
    let start = sponge::observed_all(d, rd.root@);
    lemma_ood(start, rd.ood_answers@, rd.ood_answers@.len());
    let e = ood_samples(start, rd.ood_answers@, rd.ood_answers@.len()).0;
    let f = sponge::worked(e, rc.pow_bits as nat, rd.pow_witness as int).0;
    law_queries_in_range(f, rc.domain_bits as nat, rc.num_queries as nat);
    let g = queries(f, rc.domain_bits as nat, rc.num_queries as nat).0;
    let h = sponge::sampled_quad(g).0;
    let s = sponge::observed_all(h, rd.seed_sumcheck@);
    lemma_sumchecks(s, rd.sumcheck@, rc.folding_pow_bits as nat, rd.sumcheck@.len());
}

pub proof fn lemma_rounds(d: Duplex, cfgs: Seq<RoundConfig>, data: Seq<RoundData>, k: nat, n: nat)
    requires
        sponge::wf(d),
        k <= n,
    ensures
        sponge::wf(rounds(d, cfgs, data, n).0),
        rounds(d, cfgs, data, k).0.stuck ==> rounds(d, cfgs, data, n).0.stuck,
        d.stuck ==> rounds(d, cfgs, data, n).0.stuck,
        rounds(d, cfgs, data, n).1.len() == n,
    decreases n,
{
    if n > 0 {
        let m = (n - 1) as nat;
        if k < n {
            lemma_rounds(d, cfgs, data, k, m);
        } else {
            lemma_rounds(d, cfgs, data, m, m);
        }
        lemma_round(rounds(d, cfgs, data, m).0, cfgs[m as int], data[m as int]);
    }
}

// ---------------------------------------------------------------------------
// The duplex sponge is one machine of the schedule.
// ---------------------------------------------------------------------------

proof fn machine_virtual(d: Duplex, seeds: Seq<Vec<u32>>, answers: Seq<[u32; 4]>, k: nat)
    requires
        sponge::wf(d),
    ensures
        schedule::virtual_claims(sponge::duplex(), d, seeds, answers, k) == virtual_claims(
            d,
            seeds,
            answers,
            k,
        ),
    decreases k,
{
    if k > 0 {
        machine_virtual(d, seeds, answers, (k - 1) as nat);
        lemma_virtual(d, seeds, answers, (k - 1) as nat);
    }
}

proof fn machine_claims(d: Duplex, seeds: Seq<Vec<u32>>, openings: Seq<Vec<[u32; 4]>>, k: nat)
    requires
        sponge::wf(d),
    ensures
        schedule::opening_claims(sponge::duplex(), d, seeds, openings, k) == opening_claims(
            d,
            seeds,
            openings,
            k,
        ),
    decreases k,
{
    if k > 0 {
        machine_claims(d, seeds, openings, (k - 1) as nat);
        lemma_claims(d, seeds, openings, (k - 1) as nat);
    }
}

proof fn machine_sumchecks(d: Duplex, rs: Seq<SumcheckRoundData>, bits: nat, k: nat)
    requires
        sponge::wf(d),
    ensures
        schedule::sumchecks(sponge::duplex(), d, rs, bits, k) == sumchecks(d, rs, bits, k),
    decreases k,
{
    if k > 0 {
        machine_sumchecks(d, rs, bits, (k - 1) as nat);
        lemma_sumchecks(d, rs, bits, (k - 1) as nat);
    }
}

proof fn machine_ood(d: Duplex, answers: Seq<[u32; 4]>, k: nat)
    requires
        sponge::wf(d),
    ensures
        schedule::ood_samples(sponge::duplex(), d, answers, k) == ood_samples(d, answers, k),
    decreases k,
{
    if k > 0 {
        machine_ood(d, answers, (k - 1) as nat);
        lemma_ood(d, answers, (k - 1) as nat);
    }
}

proof fn machine_uniform(d: Duplex, bits: nat, k: nat)
    requires
        sponge::wf(d),
        !d.stuck,
    ensures
        sponge::ends(
            schedule::uniform_draws(sponge::duplex(), d, bits, k),
            uniform_draws(d, bits, k),
        ),
    decreases k,
{
    if k > 0 {
        let j = (k - 1) as nat;
        machine_uniform(d, bits, j);
        lemma_uniform(d, bits, 0, j);
        let e = uniform_draws(d, bits, j).0;
        if !e.stuck {
            sponge::lemma_machine_bits(e, bits);
        }
    }
}

/// Query positions of the duplex sponge are those of its schedule.
pub proof fn law_duplex_queries(d: Duplex, bits: nat, n: nat)
    requires
        sponge::wf(d),
        !d.stuck,
    ensures
        sponge::ends(schedule::queries(sponge::duplex(), d, bits, n), queries(d, bits, n)),
{
    if n < pow2(bits) {
        machine_uniform(d, bits, n);
    }
}

proof fn machine_round(d: Duplex, rc: RoundConfig, rd: RoundData)
    requires
        sponge::wf(d),
        !d.stuck,
    ensures
        sponge::ends(schedule::round(sponge::duplex(), d, rc, rd), round(d, rc, rd)),
{
    let start = sponge::observed_all(d, rd.root@);
    let n = rd.ood_answers@.len();
    machine_ood(start, rd.ood_answers@, n);
    lemma_ood(start, rd.ood_answers@, n);
    let e = ood_samples(start, rd.ood_answers@, n).0;
    let f = sponge::worked(e, rc.pow_bits as nat, rd.pow_witness as int).0;
    law_duplex_queries(f, rc.domain_bits as nat, rc.num_queries as nat);
    law_queries_in_range(f, rc.domain_bits as nat, rc.num_queries as nat);
    let g = queries(f, rc.domain_bits as nat, rc.num_queries as nat).0;
    let h = sponge::observed_all(sponge::sampled_quad(g).0, rd.seed_sumcheck@);
    let k = rd.sumcheck@.len();
    machine_sumchecks(h, rd.sumcheck@, rc.folding_pow_bits as nat, k);
    lemma_sumchecks(h, rd.sumcheck@, rc.folding_pow_bits as nat, k);
}

proof fn machine_rounds(d: Duplex, cfgs: Seq<RoundConfig>, data: Seq<RoundData>, k: nat)
    requires
        sponge::wf(d),
        !d.stuck,
    ensures
        ({
            let r = rounds(d, cfgs, data, k);
            match schedule::rounds(sponge::duplex(), d, cfgs, data, k) {
                Some(x) => !r.0.stuck && x == r,
                None => r.0.stuck,
            }
        }),
    decreases k,
{
    if k > 0 {
        let j = (k - 1) as nat;
        machine_rounds(d, cfgs, data, j);
        lemma_rounds(d, cfgs, data, j, j);
        let e = rounds(d, cfgs, data, j).0;
        lemma_round(e, cfgs[j as int], data[j as int]);
        if !e.stuck {
            machine_round(e, cfgs[j as int], data[j as int]);
        }
    }
}

/// Over the duplex sponge the schedule ends exactly where every draw by rejection
/// does, on the sponge and with the draws of [`run`].
pub proof fn law_duplex_run(cfg: TranscriptConfig, data: TranscriptData, d: Duplex)
    requires
        sponge::wf(d),
        !d.stuck,
    ensures
        sponge::ends(schedule::run(sponge::duplex(), d, cfg, data), run(cfg, data, d)),
{
    let start = sponge::observed_all(
        sponge::observed_all(d, data.seed_commitment@),
        data.root@,
    );
    let n = data.initial_ood_answers@.len();
    machine_virtual(start, data.seed_virtual@, data.initial_ood_answers@, n);
    lemma_virtual(start, data.seed_virtual@, data.initial_ood_answers@, n);
    let e = virtual_claims(start, data.seed_virtual@, data.initial_ood_answers@, n).0;
    let k = data.openings@.len();
    machine_claims(e, data.seed_claim@, data.openings@, k);
    lemma_claims(e, data.seed_claim@, data.openings@, k);
    let f = opening_claims(e, data.seed_claim@, data.openings@, k).0;
    let g0 = sponge::observed_all(
        sponge::observed_all(f, data.seed_whir@),
        data.seed_batching@,
    );
    let g = sponge::sampled_quad(g0).0;
    let h0 = sponge::observed_all(g, data.seed_initial_sumcheck@);
    let (rs, bits) = (data.initial_sumcheck@, cfg.initial_folding_pow_bits as nat);
    machine_sumchecks(h0, rs, bits, rs.len());
    lemma_sumchecks(h0, rs, bits, rs.len());
    let h = sumchecks(h0, rs, bits, rs.len()).0;
    machine_rounds(h, cfg.rounds@, data.rounds@, cfg.rounds@.len());
    lemma_rounds(h, cfg.rounds@, data.rounds@, 0, cfg.rounds@.len());
    let i = rounds(h, cfg.rounds@, data.rounds@, cfg.rounds@.len()).0;
    lemma_final(cfg, data, i);
    if !i.stuck {
        machine_final(cfg, data, i);
    }
}

proof fn machine_final(cfg: TranscriptConfig, data: TranscriptData, d: Duplex)
    requires
        sponge::wf(d),
        !d.stuck,
    ensures
        ({
            let r = final_phase(cfg, data, d);
            match schedule::final_phase(sponge::duplex(), d, cfg, data) {
                Some(x) => !r.0.stuck && x == r,
                None => r.0.stuck,
            }
        }),
{
    let e = sponge::worked(
        sponge::observed_quads(d, data.final_poly@),
        cfg.final_pow_bits as nat,
        data.final_pow_witness as int,
    ).0;
    let (bits, n) = (cfg.final_domain_bits as nat, cfg.final_queries as nat);
    law_duplex_queries(e, bits, n);
    law_queries_in_range(e, bits, n);
    let f = sponge::observed_all(queries(e, bits, n).0, data.seed_final_sumcheck@);
    let k = data.final_sumcheck@.len();
    machine_sumchecks(f, data.final_sumcheck@, cfg.final_folding_pow_bits as nat, k);
    lemma_sumchecks(f, data.final_sumcheck@, cfg.final_folding_pow_bits as nat, k);
}

/// The final phase keeps a draw that never ended, and does not end one itself.
proof fn lemma_final(cfg: TranscriptConfig, data: TranscriptData, d: Duplex)
    requires
        sponge::wf(d),
    ensures
        d.stuck ==> final_phase(cfg, data, d).0.stuck,
        ({
            let e = sponge::worked(
                sponge::observed_quads(d, data.final_poly@),
                cfg.final_pow_bits as nat,
                data.final_pow_witness as int,
            ).0;
            queries(e, cfg.final_domain_bits as nat, cfg.final_queries as nat).0.stuck
                ==> final_phase(cfg, data, d).0.stuck
        }),
{
    let e = sponge::worked(
        sponge::observed_quads(d, data.final_poly@),
        cfg.final_pow_bits as nat,
        data.final_pow_witness as int,
    ).0;
    law_queries_in_range(e, cfg.final_domain_bits as nat, cfg.final_queries as nat);
    let f = queries(e, cfg.final_domain_bits as nat, cfg.final_queries as nat).0;
    lemma_sumchecks(
        sponge::observed_all(f, data.seed_final_sumcheck@),
        data.final_sumcheck@,
        cfg.final_folding_pow_bits as nat,
        data.final_sumcheck@.len(),
    );
}

// ---------------------------------------------------------------------------
// The transcript, run.
// ---------------------------------------------------------------------------

/// A challenge more.
proof fn lemma_quads_push(xs: Seq<[u32; 4]>, x: [u32; 4])
    ensures
        ext4::quads(xs.push(x)) == ext4::quads(xs).push(ext4::quad(x@)),
{
    assert(ext4::quads(xs.push(x)) =~= ext4::quads(xs).push(ext4::quad(x@)));
}

/// The sumcheck's transcript: absorb, proof of work, draw, per round. Says
/// whether every witness passed.
fn sumcheck_rounds<S: Sponge>(s: &mut S, data: &[SumcheckRoundData], pow_bits: usize) -> (r: (
    Vec<[u32; 4]>,
    bool,
))
    requires
        old(s).ready(),
        pow2(pow_bits as nat) < P,
    ensures
        final(s).ready(),
        (final(s).st(), ext4::quads(r.0@), r.1) == schedule::sumchecks(
            S::machine(),
            old(s).st(),
            data@,
            pow_bits as nat,
            data@.len(),
        ),
        r.0@.len() == data@.len(),
{
    let ghost d = s.st();
    let n = data.len();
    let mut out: Vec<[u32; 4]> = Vec::new();
    let mut ok = true;
    assert(ext4::quads(out@) =~= Seq::<Quad>::empty());
    while out.len() < n
        invariant
            s.ready(),
            n == data@.len(),
            out@.len() <= n,
            pow2(pow_bits as nat) < P,
            (s.st(), ext4::quads(out@), ok) == schedule::sumchecks(
                S::machine(),
                d,
                data@,
                pow_bits as nat,
                out@.len(),
            ),
        decreases n - out@.len(),
    {
        let k = out.len();
        let ghost out0 = out@;
        s.observe_ef(&data[k].poly[0]);
        s.observe_ef(&data[k].poly[1]);
        let here = s.check_witness(pow_bits, data[k].pow_witness);
        ok = ok && here;
        let r = s.sample_ef();
        out.push(r);
        proof {
            lemma_quads_push(out0, r);
        }
    }
    (out, ok)
}

/// The query positions of one block: `num_queries` uniform `bits`-bit draws in
/// draw order, duplicates kept; every position, with no draw at all, when the
/// domain is no larger than that.
pub fn stir_queries<S: Sponge>(s: &mut S, bits: usize, num_queries: usize) -> (qs: Vec<u32>)
    requires
        old(s).ready(),
        drawable(bits, num_queries),
        schedule::queries(S::machine(), old(s).st(), bits as nat, num_queries as nat) is Some,
    ensures
        final(s).ready(),
        Some((final(s).st(), ints(qs@))) == schedule::queries(
            S::machine(),
            old(s).st(),
            bits as nat,
            num_queries as nat,
        ),
{
    let ghost m = S::machine();
    let ghost d = s.st();
    let mut qs: Vec<u32> = Vec::new();
    assert(ints(qs@) =~= Seq::<int>::empty());
    proof {
        vstd::arithmetic::power2::lemma2_to64();
    }
    if bits < 32 {
        let domain = sponge::two_to_u32(bits);
        if num_queries >= domain as usize {
            while qs.len() < domain as usize
                invariant
                    domain == pow2(bits as nat),
                    s.ready(),
                    s.st() == d,
                    qs@.len() <= domain,
                    forall|i: int| 0 <= i < qs@.len() ==> #[trigger] qs@[i] == i,
                decreases domain - qs@.len(),
            {
                let q = qs.len() as u32;
                qs.push(q);
            }
            assert(ints(qs@) =~= Seq::new(pow2(bits as nat), |i: int| i));
            return qs;
        }
    }
    while qs.len() < num_queries
        invariant
            s.ready(),
            m == S::machine(),
            bits <= 32,
            qs@.len() <= num_queries,
            schedule::uniform_draws(m, d, bits as nat, num_queries as nat) is Some,
            Some((s.st(), ints(qs@))) == schedule::uniform_draws(m, d, bits as nat, qs@.len()),
        decreases num_queries - qs@.len(),
    {
        let ghost qs0 = qs@;
        proof {
            schedule::lemma_uniform_draws(
                m,
                d,
                bits as nat,
                (qs@.len() + 1) as nat,
                num_queries as nat,
            );
        }
        let q = s.sample_uniform_bits(bits);
        qs.push(q);
        assert(ints(qs@) =~= ints(qs0).push(q as int));
    }
    qs
}

/// Steps 1 to 4: the commitment, both kinds of claims, the batching randomness.
fn open_transcript<S: Sponge>(data: &TranscriptData, s: &mut S) -> (r: (
    Vec<[u32; 4]>,
    Vec<[u32; 4]>,
    [u32; 4],
))
    requires
        old(s).ready(),
        data.seed_virtual@.len() == data.initial_ood_answers@.len(),
        data.seed_claim@.len() == data.openings@.len(),
    ensures
        final(s).ready(),
        (
            final(s).st(),
            ext4::quads(r.0@),
            ext4::quads(r.1@),
            ext4::quad(r.2@),
        ) == schedule::opening_phase(S::machine(), old(s).st(), *data),
        r.0@.len() == data.initial_ood_answers@.len(),
        r.1@.len() == data.openings@.len(),
{
    let ghost m = S::machine();
    s.observe_all(data.seed_commitment.as_slice());
    s.observe_all(data.root.as_slice());
    let ghost start = s.st();
    let mut ood: Vec<[u32; 4]> = Vec::new();
    assert(ext4::quads(ood@) =~= Seq::<Quad>::empty());
    while ood.len() < data.initial_ood_answers.len()
        invariant
            s.ready(),
            m == S::machine(),
            data.seed_virtual@.len() == data.initial_ood_answers@.len(),
            ood@.len() <= data.initial_ood_answers@.len(),
            (s.st(), ext4::quads(ood@)) == schedule::virtual_claims(
                m,
                start,
                data.seed_virtual@,
                data.initial_ood_answers@,
                ood@.len(),
            ),
        decreases data.initial_ood_answers@.len() - ood@.len(),
    {
        let k = ood.len();
        let ghost ood0 = ood@;
        s.observe_all(data.seed_virtual[k].as_slice());
        let point = s.sample_ef();
        s.observe_ef(&data.initial_ood_answers[k]);
        ood.push(point);
        proof {
            lemma_quads_push(ood0, point);
        }
    }
    let ghost middle = s.st();
    let mut claims: Vec<[u32; 4]> = Vec::new();
    assert(ext4::quads(claims@) =~= Seq::<Quad>::empty());
    while claims.len() < data.openings.len()
        invariant
            s.ready(),
            m == S::machine(),
            data.seed_claim@.len() == data.openings@.len(),
            claims@.len() <= data.openings@.len(),
            (s.st(), ext4::quads(claims@)) == schedule::opening_claims(
                m,
                middle,
                data.seed_claim@,
                data.openings@,
                claims@.len(),
            ),
        decreases data.openings@.len() - claims@.len(),
    {
        let k = claims.len();
        let ghost claims0 = claims@;
        s.observe_all(data.seed_claim[k].as_slice());
        let point = s.sample_ef();
        s.observe_efs(data.openings[k].as_slice());
        claims.push(point);
        proof {
            lemma_quads_push(claims0, point);
        }
    }
    s.observe_all(data.seed_whir.as_slice());
    s.observe_all(data.seed_batching.as_slice());
    let alpha = s.sample_ef();
    (ood, claims, alpha)
}

/// One intermediate round. Says whether its witnesses passed.
fn run_round<S: Sponge>(rc: &RoundConfig, rd: &RoundData, s: &mut S) -> (r: (RoundChallenges, bool))
    requires
        old(s).ready(),
        round_fits(*rc, *rd),
        schedule::round(S::machine(), old(s).st(), *rc, *rd) is Some,
    ensures
        final(s).ready(),
        schedule::round(S::machine(), old(s).st(), *rc, *rd) matches Some((st, drawn)) && {
            &&& final(s).st() == st
            &&& r.0.are(drawn)
            &&& r.1 == drawn.pow_ok
        },
{
    let ghost m = S::machine();
    s.observe_all(rd.root.as_slice());
    let ghost start = s.st();
    let mut ood_points: Vec<[u32; 4]> = Vec::new();
    assert(ext4::quads(ood_points@) =~= Seq::<Quad>::empty());
    while ood_points.len() < rd.ood_answers.len()
        invariant
            s.ready(),
            m == S::machine(),
            ood_points@.len() <= rd.ood_answers@.len(),
            (s.st(), ext4::quads(ood_points@)) == schedule::ood_samples(
                m,
                start,
                rd.ood_answers@,
                ood_points@.len(),
            ),
        decreases rd.ood_answers@.len() - ood_points@.len(),
    {
        let k = ood_points.len();
        let ghost before = ood_points@;
        let point = s.sample_ef();
        s.observe_ef(&rd.ood_answers[k]);
        ood_points.push(point);
        proof {
            lemma_quads_push(before, point);
        }
    }
    let worked = s.check_witness(rc.pow_bits, rd.pow_witness);
    let queries = stir_queries(s, rc.domain_bits, rc.num_queries);
    let combination = s.sample_ef();
    s.observe_all(rd.seed_sumcheck.as_slice());
    let (folding, ok) = sumcheck_rounds(s, rd.sumcheck.as_slice(), rc.folding_pow_bits);
    (RoundChallenges { ood_points, queries, combination, folding }, worked && ok)
}

/// Drives `s` through the verifier's transcript and collects what it draws. `s`
/// may be any sponge: the order of what it observes and samples is the schedule's,
/// and the values sampled are its own.
pub fn transcript<S: Sponge>(cfg: &TranscriptConfig, data: &TranscriptData, s: &mut S) -> (ch:
    Challenges)
    requires
        old(s).ready(),
        fits(*cfg, *data),
        schedule::run(S::machine(), old(s).st(), *cfg, *data) is Some,
    ensures
        final(s).ready(),
        schedule::run(S::machine(), old(s).st(), *cfg, *data) matches Some((st, drawn)) && {
            &&& final(s).st() == st
            &&& ch.are(drawn)
        },
{
    let ghost m = S::machine();
    let (initial_ood_points, opening_points, alpha) = open_transcript(data, s);
    s.observe_all(data.seed_initial_sumcheck.as_slice());
    let (initial_folding, first) = sumcheck_rounds(
        s,
        data.initial_sumcheck.as_slice(),
        cfg.initial_folding_pow_bits,
    );
    let ghost h = s.st();
    let mut out: Vec<RoundChallenges> = Vec::new();
    let mut middle = true;
    while out.len() < cfg.rounds.len()
        invariant
            s.ready(),
            m == S::machine(),
            fits(*cfg, *data),
            out@.len() <= cfg.rounds@.len(),
            schedule::rounds(m, h, cfg.rounds@, data.rounds@, cfg.rounds@.len()) is Some,
            schedule::rounds(m, h, cfg.rounds@, data.rounds@, out@.len()) matches Some(
                (st, drawn, ok),
            ) && {
                &&& s.st() == st
                &&& middle == ok
                &&& drawn.len() == out@.len()
                &&& forall|i: int| 0 <= i < out@.len() ==> (#[trigger] out@[i]).are(drawn[i])
            },
        decreases cfg.rounds@.len() - out@.len(),
    {
        let k = out.len();
        let ghost out0 = out@;
        let ghost before = (schedule::rounds(m, h, cfg.rounds@, data.rounds@, k as nat)->0).1;
        proof {
            schedule::lemma_rounds(
                m,
                h,
                cfg.rounds@,
                data.rounds@,
                (k + 1) as nat,
                cfg.rounds@.len(),
            );
            assert(round_fits(cfg.rounds@[k as int], data.rounds@[k as int]));
        }
        let (r, ok) = run_round(&cfg.rounds[k], &data.rounds[k], s);
        out.push(r);
        middle = middle && ok;
        proof {
            let after = (schedule::rounds(m, h, cfg.rounds@, data.rounds@, (k + 1) as nat)->0).1;
            assert forall|i: int| 0 <= i < out@.len() implies (#[trigger] out@[i]).are(
                after[i],
            ) by {
                if i < k {
                    assert(out@[i] == out0[i]);
                    assert(after[i] == before[i]);
                }
            }
        }
    }
    s.observe_efs(data.final_poly.as_slice());
    let worked = s.check_witness(cfg.final_pow_bits, data.final_pow_witness);
    let final_queries = stir_queries(s, cfg.final_domain_bits, cfg.final_queries);
    s.observe_all(data.seed_final_sumcheck.as_slice());
    let (final_folding, last) = sumcheck_rounds(
        s,
        data.final_sumcheck.as_slice(),
        cfg.final_folding_pow_bits,
    );
    Challenges {
        initial_ood_points,
        opening_points,
        alpha,
        initial_folding,
        rounds: out,
        final_queries,
        final_folding,
        pow_ok: first && middle && (worked && last),
    }
}

} // verus!

//! The WHIR transcript's schedule, driven over a sponge whose draws are made up.

use bitcoin_stark_verifier::whir::reference::{
    stir_queries, transcript, RoundConfig, RoundData, Sponge, SumcheckRoundData, TranscriptConfig,
    TranscriptData,
};
use bitcoin_stark_verifier::whir::schedule::Machine;

/// KoalaBear's order.
const P: u32 = 0x7f00_0001;

#[derive(Clone, Copy, Debug, PartialEq, Eq)]
enum Call {
    Observe(u32),
    Sample(u32),
}

/// A sponge that draws from a list and records every call.
struct Scripted {
    draws: Vec<u32>,
    drawn: usize,
    calls: Vec<Call>,
}

impl Scripted {
    fn new(draws: Vec<u32>) -> Self {
        Scripted { draws, drawn: 0, calls: Vec::new() }
    }

    /// Draws 100, 101 and so on.
    fn counting() -> Self {
        Scripted::new((100..400).collect())
    }
}

impl Sponge for Scripted {
    type St = ();

    fn st(&self) {}

    fn machine() -> Machine<()> {
        unreachable!()
    }

    fn observe(&mut self, value: u32) {
        self.calls.push(Call::Observe(value));
    }

    fn sample(&mut self) -> u32 {
        let v = self.draws[self.drawn];
        self.drawn += 1;
        self.calls.push(Call::Sample(v));
        v
    }
}

/// Four coefficients from `x` on.
fn quad(x: u32) -> [u32; 4] {
    [x, x + 1, x + 2, x + 3]
}

fn observes(values: &[u32]) -> Vec<Call> {
    values.iter().map(|&v| Call::Observe(v)).collect()
}

fn samples(from: u32, n: u32) -> Vec<Call> {
    (from..from + n).map(Call::Sample).collect()
}

fn bare_config() -> TranscriptConfig {
    TranscriptConfig {
        commitment_ood_samples: 1,
        initial_folding: 0,
        initial_folding_pow_bits: 0,
        rounds: Vec::new(),
        final_pow_bits: 0,
        final_queries: 0,
        final_domain_bits: 1,
        final_sumcheck_rounds: 0,
        final_folding_pow_bits: 0,
    }
}

fn bare_data() -> TranscriptData {
    TranscriptData {
        seed_commitment: vec![10],
        seed_virtual: vec![vec![12]],
        seed_claim: vec![vec![13]],
        seed_whir: vec![14],
        seed_batching: vec![15],
        seed_initial_sumcheck: vec![16],
        seed_final_sumcheck: vec![17],
        root: vec![11],
        initial_ood_answers: vec![quad(20)],
        openings: vec![vec![quad(30)]],
        initial_sumcheck: Vec::new(),
        rounds: Vec::new(),
        final_poly: vec![quad(40)],
        final_pow_witness: 0,
        final_sumcheck: Vec::new(),
    }
}

/// Without folding, rounds, work or queries: seeds, claims and three points.
#[test]
fn the_schedule_of_a_bare_proof() {
    let mut s = Scripted::counting();
    let ch = transcript(&bare_config(), &bare_data(), &mut s);
    let mut calls = observes(&[10, 11, 12]);
    calls.extend(samples(100, 4));
    calls.extend(observes(&[20, 21, 22, 23, 13]));
    calls.extend(samples(104, 4));
    calls.extend(observes(&[30, 31, 32, 33, 14, 15]));
    calls.extend(samples(108, 4));
    calls.extend(observes(&[16, 40, 41, 42, 43, 17]));
    assert_eq!(s.calls, calls);
    assert_eq!(ch.initial_ood_points, vec![quad(100)]);
    assert_eq!(ch.opening_points, vec![quad(104)]);
    assert_eq!(ch.alpha, quad(108));
    assert!(ch.initial_folding.is_empty() && ch.rounds.is_empty());
    assert!(ch.final_queries.is_empty() && ch.final_folding.is_empty());
    assert!(ch.pow_ok);
}

/// A round: the root, its sample, the witness, two queries, the combination, its
/// sumcheck; then the final polynomial with every position queried.
#[test]
fn the_schedule_of_a_round() {
    let mut cfg = bare_config();
    cfg.initial_folding = 1;
    cfg.rounds = vec![RoundConfig {
        ood_samples: 1,
        pow_bits: 2,
        num_queries: 2,
        domain_bits: 3,
        folding: 1,
        folding_pow_bits: 1,
    }];
    cfg.final_queries = 2;
    let round = |at: u32, w: u32| SumcheckRoundData { poly: [quad(at), quad(at + 4)], pow_witness: w };
    let mut data = bare_data();
    data.initial_sumcheck = vec![round(50, 9)];
    data.rounds = vec![RoundData {
        root: vec![60],
        ood_answers: vec![quad(61)],
        pow_witness: 65,
        seed_sumcheck: vec![66],
        sumcheck: vec![round(70, 78)],
    }];
    let mut s = Scripted::counting();
    let ch = transcript(&cfg, &data, &mut s);
    let skipped: usize = 3 + 4 + 5 + 4 + 6 + 4;
    let mut calls = observes(&[16, 50, 51, 52, 53, 54, 55, 56, 57]);
    calls.extend(samples(112, 4));
    calls.extend(observes(&[60]));
    calls.extend(samples(116, 4));
    calls.extend(observes(&[61, 62, 63, 64, 65]));
    calls.extend(samples(120, 1));
    calls.extend(samples(121, 2));
    calls.extend(samples(123, 4));
    calls.extend(observes(&[66, 70, 71, 72, 73, 74, 75, 76, 77, 78]));
    calls.extend(samples(127, 1));
    calls.extend(samples(128, 4));
    calls.extend(observes(&[40, 41, 42, 43, 17]));
    assert_eq!(&s.calls[skipped..], &calls[..]);
    assert_eq!(ch.initial_folding, vec![quad(112)]);
    let r = &ch.rounds[0];
    assert_eq!(r.ood_points, vec![quad(116)]);
    assert_eq!(r.queries, vec![121 % 8, 122 % 8]);
    assert_eq!(r.combination, quad(123));
    assert_eq!(r.folding, vec![quad(128)]);
    // As many queries as positions: each once, and no draw.
    assert_eq!(ch.final_queries, vec![0, 1]);
    // 120 ends in two zero bits and 127 in a one.
    assert!(!ch.pow_ok);
}

/// A draw at or past the threshold is dropped; one below it keeps its low bits.
#[test]
fn a_query_is_drawn_by_rejection() {
    // The order is 127 * 2^24 + 1, so only its last element is past the threshold.
    let mut s = Scripted::new(vec![P - 1, P - 2, 5, P - 1, P - 1, 1 << 24]);
    assert_eq!(stir_queries(&mut s, 24, 3), vec![(1 << 24) - 1, 5, 0]);
    assert_eq!(s.drawn, 6);
}

/// Past 24 bits two halves are drawn, the low one first.
#[test]
fn a_wide_query_takes_two_draws() {
    let mut s = Scripted::new(vec![(7 << 13) + 3, (9 << 13) + 5, 0, 1]);
    assert_eq!(stir_queries(&mut s, 26, 2), vec![3 + (5 << 13), 1 << 13]);
    assert_eq!(s.drawn, 4);
}

/// A domain of one position is queried without a draw; so is one no larger than
/// the number of queries.
#[test]
fn a_small_domain_is_queried_whole() {
    let mut s = Scripted::new(Vec::new());
    assert_eq!(stir_queries(&mut s, 0, 5), vec![0]);
    assert_eq!(stir_queries(&mut s, 2, 4), vec![0, 1, 2, 3]);
    assert!(s.calls.is_empty());
}

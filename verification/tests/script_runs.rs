//! Programs run on plain integers: the transcript's script and Merkle paths.

use bitcoin_stark_verifier::poseidon2::constants::P;
use bitcoin_stark_verifier::poseidon2::reference::{hash_row, merkle_root, permute};
use bitcoin_stark_verifier::poseidon2::{ext4, field};
use bitcoin_stark_verifier::whir::reference::{
    self, Challenger, RoundConfig, RoundData, Sponge, SumcheckRoundData, TranscriptConfig,
    TranscriptData,
};
use bitcoin_stark_verifier::whir::script::Op;
use bitcoin_stark_verifier::whir::transcript::{self, Emitter, Mode};
use rand::{Rng, SeedableRng};
use rand_chacha::ChaCha20Rng;

/// Both stacks, the tops last.
#[derive(Clone, Debug, Default)]
struct Stacks {
    main: Vec<u32>,
    alt: Vec<u32>,
}

impl Stacks {
    fn pop(&mut self) -> u32 {
        self.main.pop().unwrap()
    }

    /// One operation; `false` when its requirement fails.
    fn step(&mut self, op: &Op) -> bool {
        match *op {
            Op::Push(n) => self.main.push(n),
            Op::Drop => {
                self.pop();
            }
            Op::TwoDrop => {
                self.pop();
                self.pop();
            }
            Op::ToAlt => {
                let v = self.pop();
                self.alt.push(v);
            }
            Op::FromAlt => {
                let v = self.alt.pop().unwrap();
                self.main.push(v);
            }
            Op::EqualVerify => {
                let (a, b) = (self.pop(), self.pop());
                return a == b;
            }
            Op::HashRow(n) => {
                let row = self.main.split_off(self.main.len() - n);
                self.main.extend(hash_row(&row));
            }
            Op::MerkleVerify(depth) => {
                let t = self.main.split_off(self.main.len() - 8 * depth - 16);
                let digest = |at: usize| -> [u32; 8] { core::array::from_fn(|i| t[at + i]) };
                let siblings: Vec<[u32; 8]> =
                    (0..depth).map(|l| digest(8 + 8 * (depth - 1 - l))).collect();
                let bits: Vec<bool> = (0..depth).map(|_| self.alt.pop().unwrap() != 0).collect();
                return merkle_root(digest(8 * depth + 8), &siblings, &bits) == digest(0);
            }
            Op::Absorb(k) => {
                let inputs = self.main.split_off(self.main.len() - k);
                let top = self.main.split_off(self.main.len() - 16);
                let mut state: [u32; 16] = core::array::from_fn(|i| top[i]);
                if k > 0 {
                    for i in 0..8 {
                        state[i] = inputs.get(i).copied().unwrap_or(0);
                    }
                    state[8] = field::add(state[8], k as u32);
                }
                permute(&mut state);
                self.main.extend(state);
            }
            Op::Sample(slot) => self.main.push(self.main[self.main.len() - 16 + slot]),
            other => panic!("unexpected {other:?}"),
        }
        true
    }

    fn run(&mut self, ops: &[Op]) -> bool {
        ops.iter().all(|op| self.step(op))
    }
}

/// The shape of a proof's prover messages, beyond what the config fixes.
struct Shape {
    /// The WHIR seed's length; the other seeds take fixed lengths below.
    pattern_len: usize,
    /// Evaluations absorbed per opening claim.
    openings: Vec<usize>,
    final_poly_len: usize,
}

fn six() -> (TranscriptConfig, Shape) {
    (
        TranscriptConfig {
            commitment_ood_samples: 1,
            initial_folding: 2,
            initial_folding_pow_bits: 0,
            rounds: vec![],
            final_pow_bits: 0,
            final_queries: 35,
            final_domain_bits: 6,
            final_sumcheck_rounds: 5,
            final_folding_pow_bits: 0,
        },
        Shape { pattern_len: 39, openings: vec![1], final_poly_len: 32 },
    )
}

fn eight() -> (TranscriptConfig, Shape) {
    (
        TranscriptConfig {
            commitment_ood_samples: 1,
            initial_folding: 2,
            initial_folding_pow_bits: 0,
            rounds: vec![RoundConfig {
                ood_samples: 1,
                pow_bits: 0,
                num_queries: 35,
                domain_bits: 8,
                folding: 2,
                folding_pow_bits: 0,
            }],
            final_pow_bits: 0,
            final_queries: 17,
            final_domain_bits: 7,
            final_sumcheck_rounds: 5,
            final_folding_pow_bits: 0,
        },
        Shape { pattern_len: 53, openings: vec![1], final_poly_len: 32 },
    )
}

/// Every branch the small proofs leave cold.
fn stress() -> (TranscriptConfig, Shape) {
    (
        TranscriptConfig {
            commitment_ood_samples: 2,
            initial_folding: 3,
            initial_folding_pow_bits: 3,
            rounds: vec![
                RoundConfig {
                    ood_samples: 2,
                    pow_bits: 5,
                    num_queries: 20,
                    domain_bits: 10,
                    folding: 3,
                    folding_pow_bits: 2,
                },
                RoundConfig {
                    ood_samples: 1,
                    pow_bits: 4,
                    num_queries: 10,
                    // Past `MAX_SINGLE_SAMPLE_BITS`: two chunks per draw.
                    domain_bits: 26,
                    folding: 2,
                    folding_pow_bits: 0,
                },
            ],
            final_pow_bits: 4,
            final_queries: 8,
            // Eight of sixteen: duplicates are kept, not redrawn.
            final_domain_bits: 4,
            final_sumcheck_rounds: 3,
            final_folding_pow_bits: 1,
        },
        Shape { pattern_len: 60, openings: vec![2, 1], final_poly_len: 8 },
    )
}

fn element(rng: &mut ChaCha20Rng) -> u32 {
    rng.random_range(0..P)
}

fn ef(rng: &mut ChaCha20Rng) -> [u32; 4] {
    core::array::from_fn(|_| element(rng))
}

fn sumcheck(rng: &mut ChaCha20Rng, rounds: usize) -> Vec<SumcheckRoundData> {
    (0..rounds)
        .map(|_| SumcheckRoundData { poly: [ef(rng), ef(rng)], pow_witness: element(rng) })
        .collect()
}

fn seed(rng: &mut ChaCha20Rng, n: usize) -> Vec<u32> {
    (0..n).map(|_| element(rng)).collect()
}

fn synthetic(rng: &mut ChaCha20Rng, cfg: &TranscriptConfig, shape: &Shape) -> TranscriptData {
    TranscriptData {
        seed_commitment: seed(rng, 35),
        seed_virtual: (0..cfg.commitment_ood_samples).map(|_| seed(rng, 54)).collect(),
        seed_claim: shape.openings.iter().map(|_| seed(rng, 74)).collect(),
        seed_whir: seed(rng, shape.pattern_len),
        seed_batching: seed(rng, 54),
        seed_initial_sumcheck: seed(rng, 37),
        seed_final_sumcheck: seed(rng, 37),
        root: (0..8).map(|_| element(rng)).collect(),
        initial_ood_answers: (0..cfg.commitment_ood_samples).map(|_| ef(rng)).collect(),
        openings: shape.openings.iter().map(|&n| (0..n).map(|_| ef(rng)).collect()).collect(),
        initial_sumcheck: sumcheck(rng, cfg.initial_folding),
        rounds: cfg
            .rounds
            .iter()
            .map(|r| RoundData {
                root: (0..8).map(|_| element(rng)).collect(),
                ood_answers: (0..r.ood_samples).map(|_| ef(rng)).collect(),
                pow_witness: element(rng),
                seed_sumcheck: seed(rng, 37),
                sumcheck: sumcheck(rng, r.folding),
            })
            .collect(),
        final_poly: (0..shape.final_poly_len).map(|_| ef(rng)).collect(),
        final_pow_witness: element(rng),
        final_sumcheck: sumcheck(rng, cfg.final_sumcheck_rounds),
    }
}

/// The stacks an emitted script starts on: its stream over a fresh state.
fn harness(stream: &[u32]) -> Stacks {
    Stacks { main: vec![0; 16], alt: stream.iter().rev().copied().collect() }
}

#[test]
fn script_transcript_reaches_the_reference_state() {
    let mut rng = ChaCha20Rng::seed_from_u64(91);
    for (name, (cfg, shape)) in [("six", six()), ("eight", eight()), ("stress", stress())] {
        let data = synthetic(&mut rng, &cfg, &shape);

        let (emitter, challenges) = transcript::transcript(&cfg, &data, Mode::Check);
        let want = reference::transcript(&cfg, &data, &mut Challenger::new());
        assert_eq!(challenges, want, "{name}: emitter draws differ from the reference's");

        let body = emitter.script();
        let mut stacks = harness(&emitter.stream);
        assert!(stacks.run(&body), "{name}: a draw was refused");
        assert_eq!(stacks.main, emitter.state().to_vec(), "{name}: final sponge state");

        let queries = challenges.rounds.iter().map(|r| r.queries.len()).sum::<usize>()
            + challenges.final_queries.len();
        println!(
            "{name}: {} permutations, {} operations, stream {} elements, {} queries, pow ok {}",
            emitter.permutations,
            body.len(),
            emitter.stream.len(),
            queries,
            challenges.pow_ok
        );
    }
}

/// The check is live: one expected draw off by one and the script fails.
#[test]
fn a_wrong_expected_draw_fails_the_script() {
    let mut rng = ChaCha20Rng::seed_from_u64(92);
    let (cfg, shape) = six();
    let data = synthetic(&mut rng, &cfg, &shape);
    let (emitter, _) = transcript::transcript(&cfg, &data, Mode::Check);

    // The first draw follows the commitment seed, the root and the first
    // virtual claim's seed.
    let first_draw = 35 + 8 + 54;
    let mut stream = emitter.stream.clone();
    stream[first_draw] = (stream[first_draw] + 1) % P;

    assert!(!harness(&stream).run(&emitter.script()), "a wrong draw must not verify");
}

/// Observing invalidates buffered output: a draw after an observe comes from a
/// fresh permutation, never from the slots left by the previous one.
#[test]
fn an_observe_between_draws_forces_a_new_permutation() {
    let mut a = Emitter::new(Mode::Check);
    let mut b = Emitter::new(Mode::Check);
    // Two draws from one permutation.
    a.observe(1);
    a.sample();
    a.sample();
    // The same, with an observe in between: three permutations, not two.
    b.observe(1);
    b.sample();
    b.observe(2);
    b.sample();
    assert_eq!(a.permutations, 1);
    assert_eq!(b.permutations, 2);
}

/// An expanded path is what a program's own walk consumes; another leaf fails it.
#[test]
fn a_path_verifies_in_a_program() {
    let leaf: [u32; 8] = core::array::from_fn(|i| 100 + i as u32);
    let siblings: Vec<[u32; 8]> =
        (0..3).map(|l| core::array::from_fn(|i| 1000 * (l + 1) + i as u32)).collect();
    let bits = [true, false, true];
    let root = merkle_root(leaf, &siblings, &bits);
    for (at, good) in [(leaf, true), ([7; 8], false)] {
        let mut ops: Vec<Op> = root.iter().map(|&x| Op::Push(x)).collect();
        for level in (0..3).rev() {
            ops.extend(siblings[level].iter().map(|&x| Op::Push(x)));
        }
        ops.extend(at.iter().map(|&x| Op::Push(x)));
        for &b in bits.iter().rev() {
            ops.push(Op::Push(u32::from(b)));
            ops.push(Op::ToAlt);
        }
        ops.push(Op::MerkleVerify(3));
        let mut stacks = Stacks::default();
        assert_eq!(stacks.run(&ops), good);
    }
    assert_eq!(ext4::add([1, 2, 3, 4], [0; 4]), [1, 2, 3, 4]);
}

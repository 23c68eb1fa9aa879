//! Real proofs of Plonky3's WHIR prover over KoalaBear: the transcript, the
//! verifier and the verifier script.

use bitcoin_stark_verifier::poseidon2::reference::{hash_row, merkle_root, permute};
use bitcoin_stark_verifier::poseidon2::{ext4, field};
use bitcoin_stark_verifier::whir::proof_script;
use bitcoin_stark_verifier::whir::reference::{
    self, base_pow, combine_answers, eq_eval, eval_multilinear, expand_univariate, sumcheck_round,
    Challenger, ClaimShape, Opening, RoundMath, Sponge, VerifyConfig, VerifyData, VerifyError,
};
use bitcoin_stark_verifier::whir::schedule::Machine;
use bitcoin_stark_verifier::whir::script::Op as ScriptOp;
use bitcoin_stark_verifier::whir::transcript::{self, Mode};
use p3_challenger::{
    CanObserve, CanSample, CanSampleBits, CanSampleUniformBits, DuplexChallenger, FieldChallenger,
    GrindingChallenger, ResamplingError, UniformSamplingField,
};
use p3_commit::MultilinearPcs;
use p3_dft::Radix2DFTSmallBatch;
use p3_field::extension::BinomialExtensionField;
use p3_field::{BasedVectorSpace, Field, PrimeCharacteristicRing, PrimeField32, TwoAdicField};
use p3_koala_bear::{default_koalabear_poseidon2_16, KoalaBear, Poseidon2KoalaBear};
use p3_matrix::dense::RowMajorMatrix;
use p3_merkle_tree::MerkleTreeMmcs;
use p3_multilinear_util::point::Point;
use p3_sumcheck::layout::{plan_stacked_layout, Layout, PrefixProver, Table};
use p3_sumcheck::{OpeningProtocol, OpeningRequest, TableShape, TableSpec};
use p3_symmetric::{CryptographicHasher, MerkleCap, PaddingFreeSponge, TruncatedPermutation};
use p3_whir::parameters::{FoldingFactor, ProtocolParameters, SecurityAssumption, WhirConfig};
use p3_whir::pcs::proof::QueryOpenings;
use p3_whir::pcs::prover::WhirProver;

type F = KoalaBear;
type EF = BinomialExtensionField<F, 4>;
type Perm = Poseidon2KoalaBear<16>;
type MyHash = PaddingFreeSponge<Perm, 16, 8, 8>;
type MyCompress = TruncatedPermutation<Perm, 2, 8, 16>;
type MyChallenger = DuplexChallenger<F, Perm, 16, 8>;
type PackedF = <F as Field>::Packing;
type MyMmcs = MerkleTreeMmcs<PackedF, PackedF, MyHash, MyCompress, 2, 8>;
type MyDft = Radix2DFTSmallBatch<F>;
type Prefix = PrefixProver<F, EF>;
type Pcs = WhirProver<EF, F, MyDft, MyMmcs, MyChallenger, Prefix>;
type LogPcs = WhirProver<EF, F, MyDft, MyMmcs, Logger, Prefix>;
type Commit = <MyMmcs as p3_commit::Mmcs<F>>::Commitment;
type Proof = p3_whir::pcs::proof::PcsProof<F, EF, MyMmcs>;

/// An `EF` element as its four canonical coefficients.
fn ef_coeffs(x: EF) -> [u32; 4] {
    let c: &[F] = x.as_basis_coefficients_slice();
    core::array::from_fn(|i| c[i].as_canonical_u32())
}

fn challenger() -> MyChallenger {
    MyChallenger::new(default_koalabear_poseidon2_16())
}

fn mmcs() -> MyMmcs {
    let perm = default_koalabear_poseidon2_16();
    MyMmcs::new(MyHash::new(perm.clone()), MyCompress::new(perm), 0)
}

fn round_log_inv_rates(num_variables: usize, ff: &FoldingFactor) -> Vec<usize> {
    let schedule = ff.compute_folding_schedule(num_variables).expect("valid schedule");
    let mut rates = Vec::with_capacity(schedule.len() - 1);
    let mut rate = 1;
    for &folding in schedule.iter().take(schedule.len() - 1) {
        rate += folding - 1;
        rates.push(rate);
    }
    rates
}

/// The protocol parameters every prover and verifier in this file agrees on.
#[derive(Clone, Copy)]
struct Setup {
    num_vars: usize,
    security: usize,
    rate: usize,
}

fn params(setup: Setup, num_variables: usize) -> ProtocolParameters {
    let folding_factor = FoldingFactor::Constant(2);
    ProtocolParameters {
        security_level: setup.security,
        pow_bits: 0,
        round_log_inv_rates: round_log_inv_rates(num_variables, &folding_factor),
        folding_factor,
        soundness_type: SecurityAssumption::CapacityBound,
        starting_log_inv_rate: setup.rate,
    }
}

/// A real WHIR proof over KoalaBear, accepted by Plonky3's own verifier.
fn prove(setup: Setup) -> (Commit, Proof, usize, OpeningProtocol) {
    let folding = FoldingFactor::Constant(2).at_round(0);
    let (width, num_vars) = (2usize, setup.num_vars);
    let specs = vec![TableSpec::new(
        TableShape::new(num_vars, width),
        vec![OpeningRequest::new(vec![0], vec![])],
    )];
    let cells: Vec<F> = (0..width << num_vars)
        .map(|i| F::from_u64((i as u64 + 7).wrapping_mul(2_654_435_761) % 2_130_706_433))
        .collect();
    let tables: Vec<Table<F>> = vec![Table::new(RowMajorMatrix::new(cells, 1 << num_vars))];
    let witness = <Prefix as Layout<F, EF>>::new_witness(tables, folding);
    let protocol = OpeningProtocol::new(specs).pad_to_min_num_variables(folding);
    let num_variables = witness.num_variables();

    let config = WhirConfig::new(num_variables, params(setup, num_variables)).expect("config");
    let pcs = Pcs::new(config, MyDft::default(), mmcs());
    let mut ch = challenger();
    let (commitment, prover_data) = pcs.commit(witness, &mut ch).expect("commit");
    let proof = pcs.open(prover_data, protocol.clone(), &mut ch).expect("open");

    let mut ch = challenger();
    pcs.verify(&commitment, &proof, &mut ch, protocol.clone())
        .expect("Plonky3's own verifier must accept the proof");
    (commitment, proof, num_variables, protocol)
}

#[derive(Clone, Copy, Debug, PartialEq)]
enum LogOp {
    Observe(u32),
    Sample(u32),
}

/// `DuplexChallenger` with every primitive `observe`/`sample` logged.
#[derive(Clone)]
struct Logger {
    inner: MyChallenger,
    log: Vec<LogOp>,
}

impl Logger {
    fn new() -> Self {
        Self { inner: challenger(), log: Vec::new() }
    }

    /// The low `bits` bits of a draw uniform on `[0, m_bits)`.
    fn uniform_chunk(&mut self, bits: usize) -> usize {
        let m = <F as UniformSamplingField>::SAMPLING_BITS_M[bits];
        loop {
            let f: F = self.sample();
            let v = u64::from(f.as_canonical_u32());
            if v < m {
                return (v as usize) & ((1usize << bits) - 1);
            }
        }
    }
}

impl CanObserve<F> for Logger {
    fn observe(&mut self, value: F) {
        self.log.push(LogOp::Observe(value.as_canonical_u32()));
        self.inner.observe(value);
    }
}

/// The commitment is a Merkle cap, absorbed root by root, element by element.
impl CanObserve<MerkleCap<F, [F; 8]>> for Logger {
    fn observe(&mut self, cap: MerkleCap<F, [F; 8]>) {
        for digest in cap.roots() {
            for value in digest {
                self.observe(*value);
            }
        }
    }
}

impl CanSample<F> for Logger {
    fn sample(&mut self) -> F {
        let value: F = self.inner.sample();
        self.log.push(LogOp::Sample(value.as_canonical_u32()));
        value
    }
}

impl CanSampleBits<usize> for Logger {
    fn sample_bits(&mut self, bits: usize) -> usize {
        let f: F = self.sample();
        (f.as_canonical_u32() as usize) & ((1usize << bits) - 1)
    }
}

impl CanSampleUniformBits<F> for Logger {
    fn sample_uniform_bits<const RESAMPLE: bool>(
        &mut self,
        bits: usize,
    ) -> Result<usize, ResamplingError> {
        assert!(RESAMPLE, "the WHIR verifier only ever resamples");
        if bits == 0 {
            return Ok(0);
        }
        Ok(if bits <= <F as UniformSamplingField>::MAX_SINGLE_SAMPLE_BITS {
            self.uniform_chunk(bits)
        } else {
            let half1 = bits / 2;
            let half2 = bits - half1;
            let chunk1 = self.uniform_chunk(half1);
            let chunk2 = self.uniform_chunk(half2);
            chunk1 | (chunk2 << half1)
        })
    }
}

impl FieldChallenger<F> for Logger {}

impl GrindingChallenger for Logger {
    type Witness = F;

    fn grind(&mut self, _bits: usize) -> F {
        unreachable!("the logger only stands in for a verifier")
    }
}

/// The runs of observed elements in a log, read from the front.
struct Runs {
    runs: Vec<Vec<u32>>,
    run: usize,
    at: usize,
}

impl Runs {
    fn new(log: &[LogOp]) -> Self {
        let mut runs: Vec<Vec<u32>> = Vec::new();
        let mut observing = false;
        for op in log {
            match *op {
                LogOp::Observe(v) => {
                    if !observing {
                        runs.push(Vec::new());
                    }
                    runs.last_mut().unwrap().push(v);
                    observing = true;
                }
                LogOp::Sample(_) => observing = false,
            }
        }
        Self { runs, run: 0, at: 0 }
    }

    fn settle(&mut self) {
        while self.run < self.runs.len() && self.at == self.runs[self.run].len() {
            self.run += 1;
            self.at = 0;
        }
    }

    /// The next `n` elements of the current run.
    fn take(&mut self, n: usize) -> Vec<u32> {
        self.settle();
        let out = self.runs[self.run][self.at..self.at + n].to_vec();
        self.at += n;
        out
    }

    /// What is left of the run the last element came from.
    fn rest(&mut self) -> Vec<u32> {
        let out = self.runs[self.run][self.at..].to_vec();
        self.at += out.len();
        out
    }

    /// The next run up to the `n` elements at its end.
    fn all_but(&mut self, n: usize) -> Vec<u32> {
        self.settle();
        let left = self.runs[self.run].len() - self.at;
        self.take(left - n)
    }
}

fn cap_elements(cap: &Commit) -> Vec<u32> {
    cap.roots().iter().flat_map(|d| d.iter().map(|x| x.as_canonical_u32())).collect()
}

fn sumcheck_data(d: &p3_sumcheck::SumcheckData<F, EF>) -> Vec<reference::SumcheckRoundData> {
    d.polynomial_evaluations
        .iter()
        .enumerate()
        .map(|(i, &[c0, c_inf])| reference::SumcheckRoundData {
            poly: [ef_coeffs(c0), ef_coeffs(c_inf)],
            pow_witness: d.pow_witnesses.get(i).map_or(0, |w| w.as_canonical_u32()),
        })
        .collect()
}

fn opening(o: &QueryOpenings<F, EF, <MyMmcs as p3_commit::Mmcs<F>>::MultiProof>) -> Opening {
    let digests = |hs: &Vec<[F; 8]>| -> Vec<[u32; 8]> {
        hs.iter().map(|h| core::array::from_fn(|i| h[i].as_canonical_u32())).collect()
    };
    match o {
        QueryOpenings::Base(o) => Opening {
            extension: false,
            rows: o
                .rows
                .iter()
                .map(|r| r.iter().map(|x| x.as_canonical_u32()).collect())
                .collect(),
            boundaries: digests(&o.proof.sibling_hashes),
        },
        QueryOpenings::Extension(o) => Opening {
            extension: true,
            rows: o
                .rows
                .iter()
                .map(|r| r.iter().flat_map(|&x| ef_coeffs(x)).collect())
                .collect(),
            boundaries: digests(&o.proof.sibling_hashes),
        },
    }
}

/// A proof with its configuration, and what Plonky3's verifier logged on it.
struct Case {
    cfg: VerifyConfig,
    data: VerifyData,
    log: Logger,
}

fn generator(bits: usize) -> u32 {
    F::two_adic_generator(bits).as_canonical_u32()
}

fn case(setup: Setup) -> Case {
    let (commitment, proof, num_variables, protocol) = prove(setup);
    let config = WhirConfig::<EF, F, Logger>::new(num_variables, params(setup, num_variables))
        .expect("config");
    let pcs = LogPcs::new(config, MyDft::default(), mmcs());
    let mut log = Logger::new();
    pcs.verify(&commitment, &proof, &mut log, protocol.clone())
        .expect("the logged verifier is the real one and must accept the proof");

    let fr = pcs.final_round_config();
    let w = &proof.whir;
    let rounds = pcs.round_parameters().to_vec();
    let transcript_cfg = reference::TranscriptConfig {
        commitment_ood_samples: pcs.commitment_ood_samples(),
        initial_folding: pcs.round_folding_factor(0),
        initial_folding_pow_bits: pcs.starting_folding_pow_bits(),
        rounds: rounds
            .iter()
            .enumerate()
            .map(|(i, r)| reference::RoundConfig {
                ood_samples: r.ood_samples,
                pow_bits: r.pow_bits,
                num_queries: r.num_queries,
                domain_bits: r.log_folded_domain_size,
                folding: pcs.round_folding_factor(i + 1),
                folding_pow_bits: r.folding_pow_bits,
            })
            .collect(),
        final_pow_bits: fr.pow_bits,
        final_queries: fr.num_queries,
        final_domain_bits: fr.log_folded_domain_size,
        final_sumcheck_rounds: pcs.final_sumcheck_rounds(),
        final_folding_pow_bits: pcs.final_folding_pow_bits(),
    };

    let mut runs = Runs::new(&log.log);
    let root = cap_elements(&commitment);
    let first = &runs.runs[0];
    let split = (0..first.len() - 7).find(|&i| first[i..i + 8] == root[..]).expect("the root");
    let seed_commitment = runs.take(split);
    runs.take(8);
    let mut seed_virtual = Vec::new();
    for _ in 0..transcript_cfg.commitment_ood_samples {
        seed_virtual.push(runs.rest());
        runs.take(4);
    }
    let openings: Vec<Vec<[u32; 4]>> = proof
        .evals
        .iter()
        .map(|b| b.current().iter().chain(b.next()).map(|&e| ef_coeffs(e)).collect())
        .collect();
    let mut seed_claim = Vec::new();
    for evals in &openings {
        seed_claim.push(runs.rest());
        runs.take(4 * evals.len());
    }
    let seed_whir = runs.rest();
    let seed_initial_sumcheck = runs.all_but(8);
    for _ in 0..transcript_cfg.initial_folding {
        runs.take(8);
    }
    let mut round_data = Vec::new();
    for (r, rc) in w.rounds.iter().zip(&transcript_cfg.rounds) {
        runs.take(8);
        for _ in 0..rc.ood_samples {
            runs.take(4);
        }
        let seed_sumcheck = runs.all_but(8);
        for _ in 0..rc.folding {
            runs.take(8);
        }
        round_data.push(reference::RoundData {
            root: cap_elements(r.commitment.as_ref().expect("round commitment")),
            ood_answers: r.ood_answers.iter().map(|&e| ef_coeffs(e)).collect(),
            pow_witness: r.pow_witness.as_canonical_u32(),
            seed_sumcheck,
            sumcheck: sumcheck_data(&r.sumcheck),
        });
    }
    let final_poly: Vec<[u32; 4]> = w
        .final_poly
        .as_ref()
        .expect("final polynomial")
        .as_slice()
        .iter()
        .map(|&e| ef_coeffs(e))
        .collect();
    runs.take(4 * final_poly.len());
    let seed_final_sumcheck = runs.all_but(8);

    let (_, placements) = plan_stacked_layout(&protocol.table_shapes());
    let selector: Point<EF> = placements[0].selectors()[0].point();
    let suffix: Vec<[u32; 4]> = selector.iter().map(|&x| ef_coeffs(x)).collect();
    let claims = vec![ClaimShape {
        row_vars: num_variables - suffix.len(),
        selectors: vec![suffix],
    }];
    let data = VerifyData {
        transcript: reference::TranscriptData {
            seed_commitment,
            seed_virtual,
            seed_claim,
            seed_whir,
            seed_batching: vec![],
            seed_initial_sumcheck,
            seed_final_sumcheck,
            root,
            initial_ood_answers: w.initial_ood_answers.iter().map(|&e| ef_coeffs(e)).collect(),
            openings,
            initial_sumcheck: sumcheck_data(&w.initial_sumcheck),
            rounds: round_data,
            final_poly,
            final_pow_witness: w.final_pow_witness.as_canonical_u32(),
            final_sumcheck: w.final_sumcheck.as_ref().map_or_else(Vec::new, sumcheck_data),
        },
        round_openings: w.rounds.iter().map(|r| opening(&r.openings)).collect(),
        final_opening: opening(&w.final_openings),
    };
    let cfg = VerifyConfig {
        num_variables,
        claims,
        rounds: rounds
            .iter()
            .map(|r| RoundMath {
                num_variables: r.num_variables,
                folded_domain_gen: generator(r.log_folded_domain_size),
            })
            .collect(),
        final_folded_domain_gen: generator(fr.log_folded_domain_size),
        transcript: transcript_cfg,
    };
    Case { cfg, data, log }
}

fn standard(num_vars: usize) -> Setup {
    Setup { num_vars, security: 32, rate: 1 }
}

/// Both stacks of a program, the tops last.
#[derive(Clone, Debug, Default)]
struct Stacks {
    main: Vec<u32>,
    alt: Vec<u32>,
}

impl Stacks {
    fn pop(&mut self) -> u32 {
        self.main.pop().expect("a slot")
    }

    fn pops(&mut self, n: usize) -> Vec<u32> {
        self.main.split_off(self.main.len() - n)
    }

    fn ef(&mut self) -> [u32; 4] {
        let t = self.pops(4);
        core::array::from_fn(|i| t[i])
    }

    fn efs(&mut self, n: usize) -> Vec<[u32; 4]> {
        let t = self.pops(4 * n);
        (0..n).map(|k| core::array::from_fn(|i| t[4 * k + i])).collect()
    }

    fn alt_efs(&mut self, n: usize) -> Vec<[u32; 4]> {
        let t = self.alt.split_off(self.alt.len() - 4 * n);
        (0..n).map(|k| core::array::from_fn(|i| t[4 * k + 3 - i])).collect()
    }

    fn alt_push(&mut self, x: [u32; 4]) {
        self.alt.extend(x.iter().rev());
    }

    /// One operation; `false` when its requirement fails.
    fn step(&mut self, op: &ScriptOp) -> bool {
        match *op {
            ScriptOp::Push(n) => self.main.push(n),
            ScriptOp::Pick(d) => {
                let v = self.main[self.main.len() - 1 - d as usize];
                self.main.push(v);
            }
            ScriptOp::Roll(d) => {
                let at = self.main.len() - 1 - d;
                let v = self.main.remove(at);
                self.main.push(v);
            }
            ScriptOp::Dup => self.main.push(*self.main.last().expect("a slot")),
            ScriptOp::Drop => {
                self.pop();
            }
            ScriptOp::TwoDrop => {
                self.pops(2);
            }
            ScriptOp::ToAlt => {
                let v = self.pop();
                self.alt.push(v);
            }
            ScriptOp::FromAlt => {
                let v = self.alt.pop().expect("a slot");
                self.main.push(v);
            }
            ScriptOp::AddIf(n) => {
                let flag = self.pop();
                let v = self.pop();
                self.main.push(if flag != 0 { v + n } else { v });
            }
            ScriptOp::EqualVerify => return self.pop() == self.pop(),
            ScriptOp::LessThan => {
                let t = self.pops(2);
                self.main.push(u32::from(t[0] < t[1]));
            }
            ScriptOp::GreaterThanOrEqual => {
                let t = self.pops(2);
                self.main.push(u32::from(t[0] >= t[1]));
            }
            ScriptOp::Verify => return self.pop() != 0,
            ScriptOp::FieldMul => {
                let t = self.pops(2);
                self.main.push(field::mul(t[0], t[1]));
            }
            ScriptOp::FieldSub => {
                let t = self.pops(2);
                self.main.push(field::sub(t[0], t[1]));
            }
            ScriptOp::LowBits(n) => {
                let v = self.pop();
                self.alt.extend((0..n).rev().map(|i| (v >> i) & 1));
            }
            ScriptOp::PowConst { gen, bits } => {
                let v = self.pop();
                self.main.push(base_pow(gen, u64::from(v) % (1 << bits)));
            }
            ScriptOp::HashRow(n) => {
                let row = self.pops(n);
                self.main.extend(hash_row(&row));
            }
            ScriptOp::MerkleVerify(depth) => {
                let t = self.pops(8 * depth + 16);
                let digest = |at: usize| -> [u32; 8] { core::array::from_fn(|i| t[at + i]) };
                let siblings: Vec<[u32; 8]> =
                    (0..depth).map(|l| digest(8 + 8 * (depth - 1 - l))).collect();
                let bits: Vec<bool> =
                    (0..depth).map(|_| self.alt.pop().expect("a bit") != 0).collect();
                return merkle_root(digest(8 * depth + 8), &siblings, &bits) == digest(0);
            }
            ScriptOp::Absorb(k) => {
                let inputs = self.pops(k);
                let top = self.pops(16);
                let mut state: [u32; 16] = core::array::from_fn(|i| top[i]);
                if k > 0 {
                    for i in 0..8 {
                        state[i] = inputs.get(i).copied().unwrap_or(0);
                    }
                    state[8] = field::add(state[8], k as u32);
                }
                permute(&mut state);
                self.main.extend(state);
            }
            ScriptOp::Sample(slot) => self.main.push(self.main[self.main.len() - 16 + slot]),
            ScriptOp::ExtMul => {
                let t = self.efs(2);
                self.main.extend(ext4::mul(t[0], t[1]));
            }
            ScriptOp::ExtAdd => {
                let t = self.efs(2);
                self.main.extend(ext4::add(t[0], t[1]));
            }
            ScriptOp::ExtToAlt => {
                let x = self.ef();
                self.alt_push(x);
            }
            ScriptOp::ExtFromAlt => {
                let x = self.alt_efs(1)[0];
                self.main.extend(x);
            }
            ScriptOp::ExtDrop(n) => {
                self.pops(4 * n);
            }
            ScriptOp::SumcheckRound => {
                let t = self.efs(4);
                self.main.extend(sumcheck_round(t[0], t[1], t[2], t[3]));
            }
            ScriptOp::EvalMultilinear(n) => {
                let table = self.efs(1 << n);
                let point = self.alt_efs(n);
                self.main.extend(eval_multilinear(&table, &point));
            }
            ScriptOp::CombineAnswers(k) => {
                let t = self.efs(2);
                let answers = self.alt_efs(k as usize + 1);
                self.main.extend(combine_answers(t[0], t[1], &answers));
            }
            ScriptOp::ExpandUnivariate(m) => {
                let u = self.ef();
                for x in expand_univariate(u, m) {
                    self.alt_push(x);
                }
            }
            ScriptOp::EqEvalAt { n, under } => {
                let t = self.efs(n + under);
                let point = self.alt_efs(n);
                for x in &t {
                    self.main.extend(x);
                }
                self.main.extend(eq_eval(&point, &t[..n]));
            }
        }
        true
    }

    fn run(&mut self, ops: &[ScriptOp]) -> bool {
        ops.iter().all(|op| self.step(op))
    }
}

/// The plain challenger with its calls recorded.
struct Recorder {
    inner: Challenger,
    log: Vec<LogOp>,
}

impl Sponge for Recorder {
    type St = ();

    fn st(&self) {}

    fn machine() -> Machine<()> {
        unreachable!()
    }

    fn observe(&mut self, value: u32) {
        self.log.push(LogOp::Observe(value));
        self.inner.observe(value);
    }

    fn sample(&mut self) -> u32 {
        let v = self.inner.sample();
        self.log.push(LogOp::Sample(v));
        v
    }
}

fn replay_at(num_vars: usize) {
    let c = case(standard(num_vars));

    // Feed the reference the same observations, demand the same draws.
    let mut mirror = Challenger::new();
    let (mut observed, mut sampled) = (0usize, 0usize);
    for (i, op) in c.log.log.iter().enumerate() {
        match *op {
            LogOp::Observe(v) => {
                mirror.observe(v);
                observed += 1;
            }
            LogOp::Sample(v) => {
                sampled += 1;
                assert_eq!(mirror.sample(), v, "challenge {sampled} (transcript op {i}) diverged");
            }
        }
    }
    assert!(sampled > 0, "the verifier drew no challenges");
    assert_eq!(
        mirror.state(),
        c.log.inner.sponge_state.map(|x| x.as_canonical_u32()),
        "sponge states differ after the full transcript"
    );

    // The transcript as a function of configuration and proof: the same calls with
    // the same values, observations and samples told apart.
    let mut recorder = Recorder { inner: Challenger::new(), log: Vec::new() };
    let from_reference =
        reference::transcript(&c.cfg.transcript, &c.data.transcript, &mut recorder);
    assert!(from_reference.pow_ok);
    assert_eq!(recorder.log, c.log.log, "the transcript differs from Plonky3's");

    // The script's stream is every element observed or drawn, in order.
    let (emitter, from_script) =
        transcript::transcript(&c.cfg.transcript, &c.data.transcript, Mode::Check);
    assert_eq!(from_script, from_reference);
    let log: Vec<u32> = c
        .log
        .log
        .iter()
        .map(|op| match *op {
            LogOp::Observe(v) | LogOp::Sample(v) => v,
        })
        .collect();
    assert_eq!(emitter.stream, log, "the transcript differs from Plonky3's");

    // The script checks every draw and ends in Plonky3's own sponge state.
    let mut stacks =
        Stacks { main: vec![0; 16], alt: emitter.stream.iter().rev().copied().collect() };
    assert!(stacks.run(&emitter.script()));
    assert_eq!(
        stacks.main,
        c.log.inner.sponge_state.map(|x| x.as_canonical_u32()).to_vec(),
        "script sponge state differs from Plonky3's"
    );
    println!(
        "{num_vars} vars: {observed} observes, {sampled} samples, {} permutations",
        emitter.permutations
    );
}

/// Plonky3's verifier, run through the logger on a real proof, and every
/// challenge it drew re-derived by `reference::Challenger` from the same
/// observations.
#[test]
fn plonky3_verifier_transcript_replays_on_the_reference_challenger() {
    // Six variables give no intermediate round; eight give one, so the round
    // loop (root, OOD, checkpoint, STIR queries, combination) is replayed too.
    for num_vars in [6usize, 8] {
        replay_at(num_vars);
    }
}

/// The verifier accepts real proofs and rejects each kind of change to one.
#[test]
fn reference_verifies_real_proofs() {
    for num_vars in [6usize, 8] {
        let c = case(standard(num_vars));
        let v = reference::verify(&c.cfg, &c.data).expect("a real proof");
        assert_eq!(v.claimed, ext4::mul(v.weights, v.final_value));

        // A row that was not committed.
        let mut data = c.data.clone();
        data.final_opening.rows[0][0] = field::add(data.final_opening.rows[0][0], 1);
        let round = c.cfg.transcript.rounds.len();
        assert!(matches!(
            reference::verify(&c.cfg, &data),
            Err(VerifyError::Merkle { round: r, .. }) if r == round
        ));

        // An opening short of a digest.
        let mut data = c.data.clone();
        data.final_opening.boundaries.pop();
        assert!(matches!(
            reference::verify(&c.cfg, &data),
            Err(VerifyError::Opening { round: r }) if r == round
        ));

        // Other weights: the closing identity fails.
        let mut cfg = c.cfg.clone();
        let one = cfg.claims[0].selectors[0][0];
        cfg.claims[0].selectors[0][0] = ext4::add(one, [5, 0, 0, 0]);
        assert!(matches!(
            reference::verify(&cfg, &c.data),
            Err(VerifyError::Closing { .. })
        ));

        // Another final domain: the final folds disagree.
        let mut cfg = c.cfg.clone();
        cfg.final_folded_domain_gen = field::mul(cfg.final_folded_domain_gen, 3);
        assert!(matches!(
            reference::verify(&cfg, &c.data),
            Err(VerifyError::FinalStir { .. })
        ));

        // Proof of work that was not done.
        let mut cfg = c.cfg.clone();
        cfg.transcript.final_pow_bits = 20;
        assert_eq!(reference::verify(&cfg, &c.data).err(), Some(VerifyError::Pow));
    }
}

/// Each query's path starts at the row that the query opens, also where another query
/// opens the same position.
#[test]
fn repeated_positions_open_their_own_rows() {
    let c = case(standard(6));
    let ch = reference::transcript(&c.cfg.transcript, &c.data.transcript, &mut Challenger::new());
    let idx = &ch.final_queries;
    let query = (1..idx.len())
        .find(|&q| idx[..q].contains(&idx[q]))
        .expect("more queries than a quarter of the domain repeat a position");
    let mut data = c.data.clone();
    data.final_opening.rows[query][0] = field::add(data.final_opening.rows[query][0], 1);
    let round = c.cfg.transcript.rounds.len();
    assert_eq!(
        reference::verify(&c.cfg, &data).err(),
        Some(VerifyError::Merkle { round, query })
    );
    let built = proof_script::build(&c.cfg, &data).expect("a false proof builds");
    assert!(!Stacks::default().run(&built.script));
}

/// The built script of a real proof runs through; that of a changed one fails, and a
/// proof whose openings do not fit its queries has no script.
#[test]
fn built_scripts_verify_real_proofs() {
    for num_vars in [6usize, 8] {
        let c = case(standard(num_vars));
        let built = proof_script::build(&c.cfg, &c.data).expect("a real proof builds");
        let mut stacks = Stacks::default();
        assert!(stacks.run(&built.script), "a real proof was rejected");
        assert!(stacks.alt.is_empty());
        let want =
            reference::transcript(&c.cfg.transcript, &c.data.transcript, &mut Challenger::new());
        assert_eq!(built.challenges, want);
        let observed: Vec<u32> = c
            .log
            .log
            .iter()
            .filter_map(|op| match *op {
                LogOp::Observe(v) => Some(v),
                LogOp::Sample(_) => None,
            })
            .collect();
        assert_eq!(built.data[..observed.len()], observed[..]);
        println!("{num_vars} vars: {} operations", built.script.len());

        // Every permutation, draw, row, path and round of the verification is there.
        let count = |kind: fn(&ScriptOp) -> bool| built.script.iter().filter(|op| kind(op)).count();
        let t = &c.data.transcript;
        let rows = c.data.round_openings.iter().map(|o| o.rows.len()).sum::<usize>()
            + c.data.final_opening.rows.len();
        let rounds = t.initial_sumcheck.len()
            + t.rounds.iter().map(|r| r.sumcheck.len()).sum::<usize>()
            + t.final_sumcheck.len();
        assert_eq!(count(|op| matches!(op, ScriptOp::Absorb(_))), built.transcript_permutations);
        assert_eq!(
            count(|op| matches!(op, ScriptOp::Sample(_))),
            c.log.log.iter().filter(|op| matches!(op, LogOp::Sample(_))).count()
        );
        assert_eq!(count(|op| matches!(op, ScriptOp::HashRow(_))), rows);
        assert_eq!(count(|op| matches!(op, ScriptOp::MerkleVerify(_))), rows);
        assert_eq!(count(|op| matches!(op, ScriptOp::SumcheckRound)), rounds);

        // The program judges the data under it, whichever word of it is changed.
        let n = built.data.len();
        for k in 0..8 {
            let mut script = built.script.clone();
            let at = k * (n - 1) / 7;
            let ScriptOp::Push(v) = script[at] else { panic!("the data comes first") };
            script[at] = ScriptOp::Push(field::add(v, 1));
            assert!(!Stacks::default().run(&script), "word {at} of {n} changed");
        }

        // A row that was not committed: the script builds and fails.
        let mut data = c.data.clone();
        data.final_opening.rows[0][0] = field::add(data.final_opening.rows[0][0], 1);
        let built = proof_script::build(&c.cfg, &data).expect("a false proof builds");
        assert!(!Stacks::default().run(&built.script));

        // Other weights: the closing identity fails in the script too.
        let mut cfg = c.cfg.clone();
        let one = cfg.claims[0].selectors[0][0];
        cfg.claims[0].selectors[0][0] = ext4::add(one, [5, 0, 0, 0]);
        let built = proof_script::build(&cfg, &c.data).expect("a false proof builds");
        assert!(!Stacks::default().run(&built.script));

        // A changed message moves the queries, which the opening then does not fit.
        let mut data = c.data.clone();
        data.final_opening.boundaries.pop();
        assert!(proof_script::build(&c.cfg, &data).is_err());
    }
}

#[test]
fn inspect_proof_openings() {
    let (_c, proof, _, _) = prove(standard(6));
    println!("\n  rounds: {}", proof.whir.rounds.len());
    for (i, r) in proof.whir.rounds.iter().enumerate() {
        let o = opening(&r.openings);
        println!("  round {i}: {} row(s), {} digest(s)", o.rows.len(), o.boundaries.len());
    }
    let o = opening(&proof.whir.final_openings);
    println!("  final: {} row(s), {} digest(s)\n", o.rows.len(), o.boundaries.len());
}

/// The leaf hash is Plonky3's, on a real proof's row, and the row reaches the root.
#[test]
fn leaf_hash_agrees_with_plonky3_on_a_real_row() {
    let (commitment, proof, _, _) = prove(Setup { num_vars: 6, security: 1, rate: 2 });
    let QueryOpenings::Base(open) = &proof.whir.final_openings else { panic!("base opening") };
    assert_eq!(open.rows.len(), 1, "expected a single-query configuration");
    let row: Vec<u32> = open.rows[0].iter().map(|x| x.as_canonical_u32()).collect();
    let h = MyHash::new(default_koalabear_poseidon2_16());
    let digest: [F; 8] = h.hash_iter(open.rows[0].iter().copied());
    let want: [u32; 8] = core::array::from_fn(|i| digest[i].as_canonical_u32());
    assert_eq!(hash_row(&row), want);

    let o = opening(&proof.whir.final_openings);
    let depth = o.boundaries.len();
    let root = cap_elements(&commitment);
    let reached = |leaf: [u32; 8]| {
        (0..1usize << depth).any(|i| {
            let b: Vec<bool> = (0..depth).map(|k| (i >> k) & 1 == 1).collect();
            merkle_root(leaf, &o.boundaries, &b).to_vec() == root
        })
    };
    assert!(reached(want), "opening authenticates");
    for i in 0..row.len() {
        let mut other = row.clone();
        other[i] = field::add(other[i], 1);
        assert!(!reached(hash_row(&other)), "a row with element {i} substituted was accepted");
    }
}

/// The multilinear evaluation of a real final polynomial is Plonky3's.
#[test]
fn final_polynomial_evaluates_as_in_plonky3() {
    let (_c, proof, _, _) = prove(standard(6));
    let poly = proof.whir.final_poly.as_ref().expect("proof carries a final polynomial");
    let evals: Vec<[u32; 4]> = poly.as_slice().iter().map(|&e| ef_coeffs(e)).collect();
    let n = evals.len().trailing_zeros() as usize;
    let point: Vec<EF> =
        (0..n).map(|i| EF::from_basis_coefficients_fn(|j| F::from_u32((91 * i + j) as u32))).collect();
    let plain: Vec<[u32; 4]> = point.iter().map(|&x| ef_coeffs(x)).collect();
    let want = ef_coeffs(poly.eval_ext::<F>(&Point::new(point)));
    assert_eq!(eval_multilinear(&evals, &plain), want);
}

//! Real proofs over `GF(2^128)`, verified by the plain verifier and by the
//! circuit: WHIR openings of a multilinear on the additive domain, and full
//! STARK proofs of Keccak-f permutations -- Plonky3's `p3-multi-stark` over the
//! Boolean WHIR trace commitment.
//!
//! The proofs are made and checked under a challenger that logs every byte, so
//! the domain-separator seeds can be read off the run and the transcript
//! compared with Plonky3's op for op.

use std::collections::HashMap;
use std::sync::{Arc, Mutex};

use bitcoin_stark_verifier::whir_gc::circuit;
use bitcoin_stark_verifier::whir_gc::field::F;
use bitcoin_stark_verifier::whir_gc::garble::{evaluate, garble};
use bitcoin_stark_verifier::whir_gc::gates::{
    CircuitAdapter, CircuitTrait, GateCounts, ValuedBuilder,
};
use bitcoin_stark_verifier::whir_gc::netlist::{Netlist, Operation};
use bitcoin_stark_verifier::whir_gc::protocol::Machine;
use bitcoin_stark_verifier::whir_gc::reference::{self, Error, Sponge};
use bitcoin_stark_verifier::whir_gc::sizes;
use bitcoin_stark_verifier::whir_gc::stark::{self, Node};
use bitcoin_stark_verifier::whir_gc::stark_circuit::{self, Layers};
use p3_air::{
    get_symbolic_constraints, AirLayout, BaseAir, BaseEntry, BaseLeaf, SymbolicExpr,
    SymbolicExpression,
};
use p3_binary_field::{BinaryChallenger, BinaryField128, BinaryField2, TowerLevel};
use p3_binary_pcs::whir::{
    recommended_cap_height, BinaryWhirProfile, BooleanWhirDomain, BooleanWhirPcs,
    BooleanWhirProver, BooleanWhirTracePcs,
};
use p3_blake3::Blake3;
use p3_challenger::{CanObserve, CanSample, HashChallenger};
use p3_commit::MultilinearPcs;
use p3_keccak_air::{KeccakBinaryAir, NUM_KECCAK_BINARY_COLS};
use p3_matrix::dense::RowMajorMatrix;
use p3_merkle_tree::MerkleTreeMmcs;
use p3_multi_stark::config::{MultiStarkConfig, ProverData};
use p3_multi_stark::verifier::verify;
use p3_multi_stark::{
    prove, setup, MultiStarkProof, ProverInstance, ProverInstances, VerifierInstance,
    VerifierInstances,
};
use p3_sumcheck::layout::{plan_stacked_layout, Layout, SuffixProver, Table};
use p3_sumcheck::{OpeningProtocol, OpeningRequest, TableShape, TableSpec};
use p3_symmetric::{CompressionFunctionFromHasher, SerializingHasher};
use p3_whir::pcs::proof::QueryOpenings;
use p3_whir::{WhirConfig, WhirProof, WhirProver};

type E = BinaryField128;
type Hash = SerializingHasher<Blake3>;
type Compress = CompressionFunctionFromHasher<Blake3, 2, 32>;
type Mmcs = MerkleTreeMmcs<E, u8, Hash, Compress, 2, 32>;
type Inner = HashChallenger<u8, Blake3, 32>;
type Challenger = BinaryChallenger<E, ByteLogger>;
type TracePcs = BooleanWhirTracePcs<E, BooleanWhirDomain, Mmcs, Challenger>;
type Commit = <Mmcs as p3_commit::Mmcs<E>>::Commitment;

/// The harness's transcript prefix (`p3-examples`' `binary_challenger`).
const INITIAL_STATE: &[u8] = b"p3-examples-binary-hash-air-v1";

fn f(x: E) -> F {
    F::from_repr(x.to_repr())
}

fn fs(xs: &[E]) -> Vec<F> {
    xs.iter().map(|&x| f(x)).collect()
}

// ---------------------------------------------------------------------------
// A byte-logging challenger.
// ---------------------------------------------------------------------------

#[derive(Clone, Copy, Debug, PartialEq, Eq)]
enum Op {
    Observe(u8),
    Sample(u8),
}

#[derive(Clone)]
struct ByteLogger {
    inner: Inner,
    log: Arc<Mutex<Vec<Op>>>,
    logging: bool,
}

impl CanObserve<u8> for ByteLogger {
    fn observe(&mut self, value: u8) {
        if self.logging {
            self.log.lock().unwrap().push(Op::Observe(value));
        }
        self.inner.observe(value);
    }
}

impl CanSample<u8> for ByteLogger {
    fn sample(&mut self) -> u8 {
        let v = self.inner.sample();
        if self.logging {
            self.log.lock().unwrap().push(Op::Sample(v));
        }
        v
    }

    fn sample_into_slice(&mut self, values: &mut [u8]) {
        self.inner.sample_into_slice(values);
        if self.logging {
            self.log.lock().unwrap().extend(values.iter().map(|&v| Op::Sample(v)));
        }
    }
}

/// The harness's challenger: the initial state, logged as observed bytes when
/// logging (the plain verifier starts empty and absorbs them as part of the seed).
fn challenger(logging: bool) -> (Challenger, Arc<Mutex<Vec<Op>>>) {
    let log = Arc::new(Mutex::new(Vec::new()));
    if logging {
        log.lock().unwrap().extend(INITIAL_STATE.iter().map(|&b| Op::Observe(b)));
    }
    let inner = ByteLogger {
        inner: HashChallenger::new(INITIAL_STATE.to_vec(), Blake3),
        log: log.clone(),
        logging,
    };
    (BinaryChallenger::new(inner), log)
}

/// The plain verifier's sponge with its ops recorded, to compare with Plonky3's run.
struct Recorder {
    inner: reference::Challenger,
    log: Vec<Op>,
}

impl Sponge for Recorder {
    type St = ();

    fn st(&self) {}

    fn machine() -> Machine<()> {
        unreachable!()
    }

    fn observe(&mut self, byte: u8) {
        self.log.push(Op::Observe(byte));
        self.inner.observe(byte);
    }
    fn sample(&mut self) -> u8 {
        let v = self.inner.sample();
        self.log.push(Op::Sample(v));
        v
    }
}

// ---------------------------------------------------------------------------
// The configuration: Plonky3's Boolean WHIR trace PCS under the logging challenger.
// ---------------------------------------------------------------------------

struct Cfg {
    pcs: TracePcs,
}

impl MultiStarkConfig for Cfg {
    type Val = E;
    type Challenge = E;
    type Challenger = Challenger;
    type Pcs = TracePcs;

    fn pcs(&self) -> &TracePcs {
        &self.pcs
    }

    fn collision_resistance_bits(&self) -> Option<usize> {
        Some(128)
    }

    fn min_num_variables(&self) -> usize {
        1
    }

    fn build_witness(&self, tables: Vec<Table<E>>) -> Vec<Table<E>> {
        tables
    }

    fn committed_table<'a>(
        &self,
        prover_data: &'a ProverData<Self>,
        table_index: usize,
    ) -> &'a Table<E> {
        prover_data.table(table_index)
    }
}

struct Params {
    log_height: usize,
    log_inv_rate: usize,
    folding: usize,
    term_bits: usize,
}

fn whir_config(p: &Params, packed: usize) -> WhirConfig<E, E, Challenger> {
    BinaryWhirProfile::proven_list_decoding(p.term_bits, p.log_inv_rate, p.folding)
        .config::<E, E, Challenger, _>(packed, &BooleanWhirDomain::default())
        .expect("profile config")
}

fn config(p: &Params) -> (Cfg, usize) {
    let shape = TableShape::new(p.log_height, NUM_KECCAK_BINARY_COLS);
    let (arity, _) = plan_stacked_layout(&[shape]);
    let packed = arity - stark::ABSORBED;
    let whir = whir_config(p, packed);
    let cap_height = recommended_cap_height(&whir);
    let mmcs = Mmcs::new(Hash::new(Blake3), Compress::new(Blake3), cap_height);
    let prover: BooleanWhirProver<E, BooleanWhirDomain, Mmcs, Challenger> =
        WhirProver::new(whir, BooleanWhirDomain::default(), mmcs);
    let pcs = BooleanWhirPcs::new(prover, arity).expect("boolean whir pcs");
    (Cfg { pcs: BooleanWhirTracePcs::from_commitment(pcs) }, packed)
}

struct Run {
    proof: MultiStarkProof<Cfg>,
    log: Vec<Op>,
    packed: usize,
    whir: WhirConfig<E, E, Challenger>,
}

/// Prove `2^log_height` rows of Keccak-f (`floor(2^log_height / 25)`
/// permutations) and verify with Plonky3, logging the verifier's run.
fn prove_and_log(p: &Params) -> Run {
    let air = KeccakBinaryAir::assuming_boolean_trace();
    let (cfg, packed) = config(p);
    let rows = 1usize << p.log_height;
    let num_hashes = rows / 25;
    assert!(num_hashes >= 1, "at least 32 rows for one permutation");
    let words = air.generate_random_trace_packed::<BinaryField2>(num_hashes);
    let table = Table::<E>::from_packed_bits(words, p.log_height);

    let (mut ch, _) = challenger(false);
    let (pk, vk) = setup(&cfg, &[&air], &mut ch).expect("setup");
    let (mut ch, _) = challenger(false);
    let instances = ProverInstances::new(vec![ProverInstance::new(&air, table, &pk, &[])]);
    let proof = prove(&cfg, instances, 0, &mut ch).expect("prove");

    let (mut ch, log) = challenger(true);
    let instances =
        VerifierInstances::new(vec![VerifierInstance::new(&air, &vk, p.log_height, &[])]);
    verify(&cfg, instances, &proof, 0, &mut ch)
        .expect("Plonky3's verifier must accept its own proof");
    let log = log.lock().unwrap().clone();
    Run { proof, log, packed, whir: whir_config(p, packed) }
}

// ---------------------------------------------------------------------------
// Reading the run: the proof's messages and the seeds between them.
// ---------------------------------------------------------------------------

fn elem_bytes(x: F) -> [u8; 16] {
    x.to_repr().to_le_bytes()
}

fn elems_bytes(xs: &[F]) -> Vec<u8> {
    xs.iter().flat_map(|&x| elem_bytes(x)).collect()
}

fn cap_bytes(cap: &Commit) -> Vec<u8> {
    cap.roots().iter().flat_map(|r| r.iter().copied()).collect()
}

fn sumcheck_data(d: &p3_sumcheck::SumcheckData<E, E>) -> Vec<reference::SumcheckRoundData> {
    d.polynomial_evaluations
        .iter()
        .enumerate()
        .map(|(i, &[c0, c_inf])| reference::SumcheckRoundData {
            poly: [f(c0), f(c_inf)],
            pow_witness: d.pow_witnesses.get(i).map_or(F::zero(), |&w| f(w)),
        })
        .collect()
}

fn opening(
    o: &QueryOpenings<E, E, <Mmcs as p3_commit::Mmcs<E>>::MultiProof>,
) -> reference::Opening {
    let shared = match o {
        QueryOpenings::Base(s) => s,
        QueryOpenings::Extension(s) => s,
    };
    reference::Opening {
        rows: shared.rows.iter().map(|r| fs(r)).collect(),
        boundaries: shared.proof.sibling_hashes.clone(),
    }
}

struct Cursor<'a> {
    log: &'a [Op],
    pos: usize,
}

impl Cursor<'_> {
    fn observes(&mut self) -> Vec<u8> {
        let mut out = Vec::new();
        while let Some(&Op::Observe(v)) = self.log.get(self.pos) {
            out.push(v);
            self.pos += 1;
        }
        out
    }

    fn samples(&mut self) -> usize {
        let start = self.pos;
        while let Some(&Op::Sample(_)) = self.log.get(self.pos) {
            self.pos += 1;
        }
        self.pos - start
    }

    fn expect_samples(&mut self, n: usize, what: &str) {
        assert_eq!(self.samples(), n, "{what}: sample count at op {}", self.pos);
    }

    fn observes_ending_with(&mut self, tail: &[u8], what: &str) -> Vec<u8> {
        let mut block = self.observes();
        assert!(
            block.ends_with(tail),
            "{what}: block of {} bytes does not end with the {}-byte message (op {})",
            block.len(),
            tail.len(),
            self.pos
        );
        block.truncate(block.len() - tail.len());
        block
    }

    fn expect_observes(&mut self, values: &[u8], what: &str) {
        assert_eq!(self.observes(), values, "{what}: observed message at op {}", self.pos);
    }
}

fn poly_bytes(r: &reference::SumcheckRoundData, pow_bits: usize) -> Vec<u8> {
    let mut v = elem_bytes(r.poly[0]).to_vec();
    v.extend(elem_bytes(r.poly[1]));
    if pow_bits > 0 {
        v.extend(elem_bytes(r.pow_witness));
    }
    v
}

fn sumcheck_seed(
    cur: &mut Cursor,
    rounds: &[reference::SumcheckRoundData],
    pow_bits: usize,
    what: &str,
) -> Vec<u8> {
    let seed = cur.observes_ending_with(&poly_bytes(&rounds[0], pow_bits), what);
    let per_round = if pow_bits > 0 { 8 + 16 } else { 16 };
    cur.expect_samples(per_round, what);
    for r in &rounds[1..] {
        cur.expect_observes(&poly_bytes(r, pow_bits), what);
        cur.expect_samples(per_round, what);
    }
    seed
}

/// The public parameters of an opening of one claim at a point of every variable.
fn public_parameters(c: &WhirConfig<E, E, Challenger>, given_points: bool) -> reference::Config {
    let fr = c.final_round_config();
    let k = c.num_variables();
    reference::Config {
        num_variables: k,
        commitment_ood_samples: c.commitment_ood_samples(),
        given_points,
        claims: vec![reference::ClaimShape { row_vars: k, selectors: vec![vec![]] }],
        initial_folding: c.round_folding_factor(0),
        initial_folding_pow_bits: c.starting_folding_pow_bits(),
        rounds: c
            .round_parameters()
            .iter()
            .enumerate()
            .map(|(i, r)| reference::RoundConfig {
                ood_samples: r.ood_samples,
                pow_bits: r.pow_bits,
                num_queries: r.num_queries,
                index_width: r.log_folded_domain_size,
                num_variables: r.num_variables,
                folding: c.round_folding_factor(i + 1),
                folding_pow_bits: r.folding_pow_bits,
            })
            .collect(),
        final_pow_bits: fr.pow_bits,
        final_queries: fr.num_queries,
        final_index_width: fr.log_folded_domain_size,
        final_sumcheck_rounds: c.final_sumcheck_rounds(),
        final_folding_pow_bits: c.final_folding_pow_bits(),
    }
}

/// What a run absorbs up to the batching of its claims.
struct Statement {
    seed_commitment: Vec<u8>,
    seed_virtual: Vec<Vec<u8>>,
    seed_claim: Vec<Vec<u8>>,
    seed_whir_batching: Vec<u8>,
    cap: Vec<u8>,
    openings: Vec<Vec<F>>,
}

/// The rest of the run after the claims are batched, from the initial sumcheck on.
fn rest_of_the_opening(
    cur: &mut Cursor,
    cfg: &reference::Config,
    w: &WhirProof<E, E, Mmcs>,
    st: Statement,
) -> reference::Data {
    let initial_sumcheck = sumcheck_data(&w.initial_sumcheck);
    let final_poly: Vec<F> = fs(w.final_poly.as_ref().expect("final polynomial").as_slice());
    let final_sumcheck = w.final_sumcheck.as_ref().map_or_else(Vec::new, sumcheck_data);
    let seed_initial_sumcheck = sumcheck_seed(
        cur,
        &initial_sumcheck,
        cfg.initial_folding_pow_bits,
        "initial sumcheck",
    );

    let rounds: Vec<reference::RoundData> = w
        .rounds
        .iter()
        .zip(&cfg.rounds)
        .map(|(r, rc)| {
            let cap = cap_bytes(r.commitment.as_ref().expect("round commitment"));
            let sumcheck = sumcheck_data(&r.sumcheck);
            cur.expect_observes(&cap, "round cap");
            for (i, &answer) in r.ood_answers.iter().enumerate() {
                cur.expect_samples(16, "round OOD point");
                let mut expected = elem_bytes(f(answer)).to_vec();
                if i + 1 == r.ood_answers.len() && rc.pow_bits > 0 {
                    expected.extend(elem_bytes(f(r.pow_witness)));
                }
                cur.expect_observes(&expected, "round OOD answer");
            }
            let draws = reference::query_draws(rc.index_width, rc.num_queries);
            cur.expect_samples(
                (if rc.pow_bits > 0 { 8 } else { 0 }) + 8 * draws + 16,
                "round draws and gamma",
            );
            let seed_sumcheck =
                sumcheck_seed(cur, &sumcheck, rc.folding_pow_bits, "round sumcheck");
            reference::RoundData {
                cap,
                ood_answers: fs(&r.ood_answers),
                pow_witness: f(r.pow_witness),
                seed_sumcheck,
                sumcheck,
                opening: opening(&r.openings),
            }
        })
        .collect();

    let mut final_bytes = elems_bytes(&final_poly);
    if cfg.final_pow_bits > 0 {
        final_bytes.extend(elem_bytes(f(w.final_pow_witness)));
    }
    cur.expect_observes(&final_bytes, "final polynomial");
    let draws = reference::query_draws(cfg.final_index_width, cfg.final_queries);
    cur.expect_samples((if cfg.final_pow_bits > 0 { 8 } else { 0 }) + 8 * draws, "final draws");
    let seed_final_sumcheck =
        sumcheck_seed(cur, &final_sumcheck, cfg.final_folding_pow_bits, "final sumcheck");
    assert_eq!(cur.pos, cur.log.len(), "the run ends with the final sumcheck");

    reference::Data {
        seed_commitment: st.seed_commitment,
        seed_virtual: st.seed_virtual,
        seed_claim: st.seed_claim,
        seed_whir_batching: st.seed_whir_batching,
        seed_initial_sumcheck,
        seed_final_sumcheck,
        cap: st.cap,
        initial_ood_answers: fs(&w.initial_ood_answers),
        openings: st.openings,
        initial_sumcheck,
        rounds,
        final_poly,
        final_pow_witness: f(w.final_pow_witness),
        final_sumcheck,
        final_opening: opening(&w.final_openings),
    }
}

/// The position of `needle` in `hay`, which must occur exactly once.
fn find(hay: &[u8], needle: &[u8], what: &str) -> usize {
    let hits: Vec<usize> = hay
        .windows(needle.len())
        .enumerate()
        .filter(|(_, w)| *w == needle)
        .map(|(i, _)| i)
        .collect();
    assert_eq!(hits.len(), 1, "{what}: expected exactly one occurrence, found {}", hits.len());
    hits[0]
}

/// An expression's place in the list, after its operands.
fn place(
    e: &SymbolicExpression<E>,
    nodes: &mut Vec<Node>,
    memo: &mut HashMap<usize, usize>,
) -> usize {
    let key = core::ptr::from_ref(e) as usize;
    if let Some(&at) = memo.get(&key) {
        return at;
    }
    let node = match e {
        SymbolicExpr::Leaf(leaf) => match leaf {
            BaseLeaf::Variable(var) => match var.entry {
                BaseEntry::Main { offset: 0 } => Node::Local(var.index),
                BaseEntry::Main { offset: 1 } => Node::Next(var.index),
                other => panic!("unsupported variable {other:?}"),
            },
            BaseLeaf::IsFirstRow => Node::IsFirstRow,
            BaseLeaf::IsLastRow => Node::IsLastRow,
            BaseLeaf::IsTransition => Node::IsTransition,
            BaseLeaf::Constant(c) => Node::Constant(f(*c)),
        },
        SymbolicExpr::Add { x, y, .. } => {
            let (x, y) = (place(x, nodes, memo), place(y, nodes, memo));
            Node::Add(x, y)
        }
        SymbolicExpr::Sub { x, y, .. } => {
            let (x, y) = (place(x, nodes, memo), place(y, nodes, memo));
            Node::Sub(x, y)
        }
        SymbolicExpr::Neg { x, .. } => Node::Neg(place(x, nodes, memo)),
        SymbolicExpr::Mul { x, y, .. } => {
            let (x, y) = (place(x, nodes, memo), place(y, nodes, memo));
            Node::Mul(x, y)
        }
    };
    nodes.push(node);
    memo.insert(key, nodes.len() - 1);
    nodes.len() - 1
}

#[derive(Clone)]
struct Inputs {
    scfg: stark::Config,
    sdata: stark::Data,
    wcfg: reference::Config,
    wdata: reference::Data,
    air: stark::Air,
}

fn inputs(p: &Params, run: &Run) -> Inputs {
    let n = p.log_height;
    let width = NUM_KECCAK_BINARY_COLS;
    let c: &WhirConfig<E, E, Challenger> = &run.whir;
    let k = c.num_variables();
    assert_eq!(k, run.packed);

    let air = KeccakBinaryAir::assuming_boolean_trace();
    let layout = AirLayout::from_air::<E>(&air);
    let symbolic = get_symbolic_constraints::<E, _>(&air, layout);
    let mut nodes = Vec::new();
    let mut memo = HashMap::new();
    let constraints: Vec<usize> =
        symbolic.iter().map(|e| place(e, &mut nodes, &mut memo)).collect();
    let air_spec = stark::Air { width: BaseAir::<E>::width(&air), nodes, constraints };
    assert_eq!(air_spec.width, width);

    let wcfg = public_parameters(c, true);

    // The proof's messages.
    let proof = &run.proof;
    let red = &proof.opening.opening.reduction;
    assert_eq!(red.claims.len(), 1, "one ring switch");
    let claim = &red.claims[0];
    let sdata = stark::Data {
        claimed_sum: f(proof.sumcheck.claimed_sum),
        round_polys: proof
            .sumcheck
            .round_polys
            .iter()
            .map(|p| <[F; 4]>::try_from(fs(p).as_slice()).expect("degree-4 rounds carry 4 values"))
            .collect(),
        pow_witnesses: fs(&proof.sumcheck.pow_witnesses),
        values: fs(&proof.opening.values),
        tensor: fs(claim.tensor.rows()),
        successor: claim.successor.as_ref().map(|s| (fs(s.carry.rows()), fs(s.last.rows()))),
        rs_sumcheck: red
            .sumcheck
            .polynomial_evaluations
            .iter()
            .map(|&[a, b]| [f(a), f(b)])
            .collect(),
        final_eval: f(red.final_eval),
    };
    assert!(red.sumcheck.pow_witnesses.is_empty());
    let pcs_proof = &proof.opening.opening.opening;
    let w = &pcs_proof.whir;
    let cap = cap_bytes(&proof.commitment);
    let initial_ood_answers = fs(&w.initial_ood_answers);
    let openings: Vec<Vec<F>> = pcs_proof
        .evals
        .iter()
        .map(|b| b.current().iter().chain(b.next()).map(|&x| f(x)).collect())
        .collect();
    assert_eq!(openings, vec![vec![f(red.final_eval)]], "WHIR opens the surviving claim");

    let mut scfg =
        stark::Config { log_height: n, width, pow_bits: 0, seeds: stark::Seeds::default() };
    let column_vars = scfg.column_vars();
    let packed = scfg.packed_vars();
    assert_eq!(packed, k);

    // Walk the run.
    let mut cur = Cursor { log: &run.log, pos: 0 };
    let head = cur.observes();
    let at_cap = find(&head, &cap, "the commitment cap");
    let seed_commitment = head[..at_cap].to_vec();
    scfg.seeds.zerocheck = head[at_cap + cap.len()..].to_vec();
    let drawn = cur.samples();
    assert!(drawn % 16 == 0 && drawn >= 16 * (2 + n), "alpha, beta and {n} nonzero tau");
    let round0 = elems_bytes(&sdata.round_polys[0]);
    let mut block = cur.observes_ending_with(&round0, "generic-degree round 0");
    assert!(block.ends_with(&elem_bytes(sdata.claimed_sum)), "the claimed sum precedes round 0");
    block.truncate(block.len() - 16);
    scfg.seeds.generic_degree = block;
    cur.expect_samples(16, "r_0");
    for poly in &sdata.round_polys[1..] {
        cur.expect_observes(&elems_bytes(poly), "generic-degree round");
        cur.expect_samples(16, "r_i");
    }
    // Column batching: the row point is sampled, so it is what the block ends
    // with after the values; take the seed as everything before `n` elements
    // plus the values.
    let values_bytes = elems_bytes(&sdata.values);
    let mut block = cur.observes_ending_with(&values_bytes, "the opened values");
    block.truncate(block.len() - 16 * n);
    scfg.seeds.column_batching = block;
    cur.expect_samples(16 * column_vars, "the column point");
    let mut tensors = elems_bytes(&sdata.tensor);
    if let Some((carry, last)) = &sdata.successor {
        tensors.extend(elems_bytes(carry));
        tensors.extend(elems_bytes(last));
    }
    let mut block = cur.observes_ending_with(&tensors, "the ring switch tensors");
    block.truncate(block.len() - 16 * (column_vars + n));
    scfg.seeds.ring_switch = block;
    cur.expect_samples(
        16 * (stark::ABSORBED + usize::from(scfg.sends_successor())),
        "r_batch and alpha",
    );
    assert_eq!(sdata.rs_sumcheck.len(), packed, "no Boolean prefix on the column point");
    let round0 = elems_bytes(&sdata.rs_sumcheck[0]);
    scfg.seeds.quadratic = cur.observes_ending_with(&round0, "ring switch round 0");
    cur.expect_samples(16, "r'_0");
    for poly in &sdata.rs_sumcheck[1..] {
        cur.expect_observes(&elems_bytes(poly), "ring switch round");
        cur.expect_samples(16, "r'_i");
    }
    // The surviving claim, then the WHIR statement.
    let block = cur.observes();
    assert!(
        block.starts_with(&elem_bytes(sdata.final_eval)),
        "the final evaluation follows the sumcheck"
    );
    let mut carry = block[16..].to_vec();
    let mut seed_virtual = Vec::new();
    for &answer in &initial_ood_answers {
        seed_virtual.push(std::mem::take(&mut carry));
        cur.expect_samples(16, "OOD point");
        carry = cur.observes();
        assert!(carry.starts_with(&elem_bytes(answer)), "the OOD answer follows its point");
        carry.drain(..16);
    }
    let eval = elems_bytes(&openings[0]);
    let at_eval = find(&carry, &eval, "the claimed evaluation");
    let seed_claim = vec![carry[..at_eval].to_vec()];
    let seed_whir_batching = carry[at_eval + eval.len()..].to_vec();
    cur.expect_samples(16, "alpha");
    let wdata = rest_of_the_opening(
        &mut cur,
        &wcfg,
        w,
        Statement {
            seed_commitment,
            seed_virtual,
            seed_claim,
            seed_whir_batching,
            cap,
            openings,
        },
    );
    Inputs { scfg, sdata, wcfg, wdata, air: air_spec }
}

/// Rate 1/32, folding 4, 110 bits per WHIR term.
fn params(log_height: usize) -> Params {
    Params { log_height, log_inv_rate: 5, folding: 4, term_bits: 110 }
}

/// The transcript of both layers on any sponge.
fn transcript<S: Sponge>(
    inp: &Inputs,
    sdata: &stark::Data,
    s: &mut S,
) -> (stark::Challenges, reference::Challenges) {
    reference::absorb_commitment(&inp.wdata, s);
    let sch = stark::prefix(&inp.scfg, sdata, s);
    let ch = reference::transcript_after(&inp.wcfg, &inp.wdata, s);
    (sch, ch)
}

fn reference_case(log_height: usize) {
    let p = params(log_height);
    let run = prove_and_log(&p);
    let inp = inputs(&p, &run);
    println!(
        "2^{log_height} rows: {} constraints, {} packed variables, cap of {}, final queries {}",
        inp.air.constraints.len(),
        inp.wcfg.num_variables,
        inp.wdata.cap.len() / 32,
        inp.wcfg.final_queries
    );

    // Op for op against Plonky3's run.
    let mut rec = Recorder { inner: reference::Challenger::new(), log: Vec::new() };
    let (sch, ch) = transcript(&inp, &inp.sdata, &mut rec);
    let first_diff = rec.log.iter().zip(&run.log).position(|(a, b)| a != b);
    assert_eq!(
        first_diff, None,
        "the reference's transcript diverges from Plonky3's at op {first_diff:?}"
    );
    assert_eq!(
        rec.log.len(),
        run.log.len(),
        "the reference's transcript is as long as Plonky3's"
    );

    // The checks.
    stark::check(&inp.scfg, &inp.sdata, &inp.air, &sch).expect("the STARK layers accept");
    let given = vec![sch.surviving.clone()];
    reference::verify_with(&inp.wcfg, &inp.wdata, ch, &given)
        .expect("WHIR accepts the surviving claim");

    // Each way the STARK layers can be wrong, and what is named.
    let fails = |d: &stark::Data| stark::check(&inp.scfg, d, &inp.air, &sch).err();
    let mut d = inp.sdata.clone();
    d.claimed_sum = F::one();
    assert_eq!(fails(&d), Some(stark::Error::ClaimedSum));
    let mut d = inp.sdata.clone();
    d.values[7] = d.values[7].plus(F::one());
    assert_eq!(fails(&d), Some(stark::Error::Zerocheck));
    let mut d = inp.sdata.clone();
    d.tensor[0] = d.tensor[0].plus(F::one());
    assert_eq!(fails(&d), Some(stark::Error::Incoming));
    let mut d = inp.sdata.clone();
    d.final_eval = d.final_eval.plus(F::one());
    assert_eq!(fails(&d), Some(stark::Error::RingSwitch));
    if let Some((mut carry, last)) = inp.sdata.successor.clone() {
        carry[0] = carry[0].plus(F::one());
        let mut d = inp.sdata.clone();
        d.successor = Some((carry, last));
        assert_eq!(fails(&d), Some(stark::Error::Successor));
    }
    let mut ungrounded = sch.clone();
    ungrounded.pow_ok = false;
    assert_eq!(
        stark::check(&inp.scfg, &inp.sdata, &inp.air, &ungrounded).err(),
        Some(stark::Error::Pow)
    );
    let prefix = |d: &stark::Data, limit: u64| {
        let mut s = reference::Challenger::new();
        reference::absorb_commitment(&inp.wdata, &mut s);
        stark::prefix_within(&inp.scfg, d, &mut s, limit).err()
    };
    assert_eq!(prefix(&inp.sdata, 64), None);
    assert_eq!(prefix(&inp.sdata, 2), Some(stark::PrefixError::Draws));
    let mut d = inp.sdata.clone();
    d.rs_sumcheck.pop();
    assert_eq!(prefix(&d, 64), Some(stark::PrefixError::Rounds));

    // A changed opened value: the zerocheck, the ring switch or WHIR must reject.
    let mut bad = inp.sdata.clone();
    bad.values[7] = bad.values[7].plus(F::one());
    let (bsch, bch) = transcript(&inp, &bad, &mut reference::Challenger::new());
    let given = vec![bsch.surviving.clone()];
    let whir = reference::verify_with(&inp.wcfg, &inp.wdata, bch, &given);
    let stark_ok = stark::check(&inp.scfg, &bad, &inp.air, &bsch);
    assert!(stark_ok.is_err() || whir.is_err(), "a changed value must be rejected");
}

/// The reference accepts real Keccak-f proofs, its transcript matching
/// Plonky3's byte for byte, and rejects a proof with an opened value changed.
#[test]
fn reference_verifies_real_keccak_stark_proofs() {
    for log_height in [5usize, 8] {
        reference_case(log_height);
    }
}

type Pcs = WhirProver<E, E, BooleanWhirDomain, Mmcs, Challenger, SuffixProver<E, E>>;

/// A WHIR proof of one claim on a `GF(2^128)` multilinear, and the log of
/// Plonky3's verifier on it.
struct Opened {
    cfg: reference::Config,
    data: reference::Data,
    log: Vec<Op>,
}

fn empty_challenger() -> (Challenger, Arc<Mutex<Vec<Op>>>) {
    let log = Arc::new(Mutex::new(Vec::new()));
    let inner = ByteLogger {
        inner: HashChallenger::new(vec![], Blake3),
        log: log.clone(),
        logging: true,
    };
    (BinaryChallenger::new(inner), log)
}

/// Prove a `GF(2^128)` multilinear and verify it through the logger.
fn open_and_log(num_vars: usize, log_inv_rate: usize, folding: usize, term_bits: usize) -> Opened {
    let specs = vec![TableSpec::new(
        TableShape::new(num_vars, 1),
        vec![OpeningRequest::new(vec![0], vec![])],
    )];
    let cells: Vec<E> = (0..1u128 << num_vars)
        .map(|i| {
            let x = (i + 11).wrapping_mul(0x9e37_79b9_7f4a_7c15_f39c_c060_5ced_c835);
            E::from_repr(x ^ (x >> 61))
        })
        .collect();
    let tables: Vec<Table<E>> = vec![Table::new(RowMajorMatrix::new(cells, 1 << num_vars))];
    let witness = <SuffixProver<E, E> as Layout<E, E>>::new_witness(tables, folding);
    let protocol = OpeningProtocol::new(specs).pad_to_min_num_variables(folding);
    let num_variables = witness.num_variables();

    let domain = BooleanWhirDomain::default();
    let profile = BinaryWhirProfile::proven_list_decoding(term_bits, log_inv_rate, folding);
    let config = profile
        .config::<E, E, Challenger, _>(num_variables, &domain)
        .expect("profile config");
    let cfg = public_parameters(&config, false);
    let mmcs = Mmcs::new(Hash::new(Blake3), Compress::new(Blake3), recommended_cap_height(&config));
    let pcs = Pcs::new(config, domain, mmcs);

    let (mut ch, _) = empty_challenger();
    let (commitment, prover_data) =
        <Pcs as MultilinearPcs<E, Challenger>>::commit(&pcs, witness, &mut ch).expect("commit");
    let proof = <Pcs as MultilinearPcs<E, Challenger>>::open(
        &pcs,
        prover_data,
        protocol.clone(),
        &mut ch,
    )
    .expect("open");

    let (mut ch, log) = empty_challenger();
    <Pcs as MultilinearPcs<E, Challenger>>::verify(&pcs, &commitment, &proof, &mut ch, protocol)
        .expect("Plonky3's own verifier must accept the proof");
    let log = log.lock().unwrap().clone();

    let cap = cap_bytes(&commitment);
    let openings: Vec<Vec<F>> = proof.evals.iter().map(|b| fs(b.current())).collect();
    let mut cur = Cursor { log: &log, pos: 0 };
    let head = cur.observes();
    let at_cap = find(&head, &cap, "the commitment cap");
    let seed_commitment = head[..at_cap].to_vec();
    let mut carry = head[at_cap + cap.len()..].to_vec();
    let mut seed_virtual = Vec::new();
    for &answer in &proof.whir.initial_ood_answers {
        seed_virtual.push(std::mem::take(&mut carry));
        cur.expect_samples(16, "OOD point");
        carry = cur.observes();
        assert!(carry.starts_with(&elem_bytes(f(answer))), "the OOD answer follows its point");
        carry.drain(..16);
    }
    cur.expect_samples(16, "the claim's point");
    let evals = elems_bytes(&openings[0]);
    let mut batching = cur.observes();
    assert!(batching.starts_with(&evals), "the evaluations follow the point");
    batching.drain(..evals.len());
    cur.expect_samples(16, "alpha");
    let data = rest_of_the_opening(
        &mut cur,
        &cfg,
        &proof.whir,
        Statement {
            seed_commitment,
            seed_virtual,
            seed_claim: vec![carry],
            seed_whir_batching: batching,
            cap,
            openings,
        },
    );
    Opened { cfg, data, log }
}

/// Plonky3's proofs replay on the plain challenger and verify.
#[test]
fn plonky3_binary_whir_proof_verifies_and_its_byte_transcript_is_logged() {
    for (num_vars, rate, folding) in [(8usize, 3usize, 4usize), (12, 3, 4)] {
        let o = open_and_log(num_vars, rate, folding, 110);
        let observed = o.log.iter().filter(|op| matches!(op, Op::Observe(_))).count();
        let sampled = o.log.len() - observed;
        assert!(sampled > 0);
        let mut rec = Recorder { inner: reference::Challenger::new(), log: Vec::new() };
        reference::transcript(&o.cfg, &o.data, &mut rec);
        assert!(rec.log == o.log, "the transcript is Plonky3's, byte for byte");
        reference::verify(&o.cfg, &o.data).expect("the plain verifier accepts");
    }
}

/// Each way a proof can be wrong, and what the plain verifier names.
#[test]
fn a_wrong_opening_is_named() {
    let o = open_and_log(8, 3, 4, 40);
    let mut s = reference::Challenger::new();
    let ch = reference::transcript(&o.cfg, &o.data, &mut s);
    reference::verify_with(&o.cfg, &o.data, ch.clone(), &[]).expect("the honest proof");

    let mut ungrounded = o.cfg.clone();
    ungrounded.final_pow_bits = 24;
    assert_eq!(reference::verify(&ungrounded, &o.data).err(), Some(Error::Pow));

    let mut d = o.data.clone();
    d.final_opening.boundaries.pop();
    let round = d.rounds.len();
    assert_eq!(reference::verify(&o.cfg, &d).err(), Some(Error::Opening { round }));

    let mut d = o.data.clone();
    d.final_opening.rows[0][0] = d.final_opening.rows[0][0].plus(F::one());
    assert!(matches!(
        reference::verify(&o.cfg, &d),
        Err(Error::Merkle { round: r, .. }) if r == round
    ));

    let mut d = o.data.clone();
    d.final_poly[0] = d.final_poly[0].plus(F::one());
    assert_eq!(
        reference::verify_with(&o.cfg, &d, ch.clone(), &[]).err(),
        Some(Error::FinalStir { query: 0 })
    );

    let mut d = o.data.clone();
    d.openings[0][0] = d.openings[0][0].plus(F::one());
    assert!(matches!(
        reference::verify_with(&o.cfg, &d, ch, &[]),
        Err(Error::Closing { claimed, expected }) if claimed != expected
    ));
}

/// A proof is answered by the first check it fails, whatever comes after; a test of
/// the sizes up front refuses it instead.
#[test]
fn sizes_matter_as_far_as_the_verifier_gets() {
    let o = open_and_log(8, 3, 4, 40);
    assert!(matches!(sizes::checked_verify(&o.cfg, &o.data), Some(Ok(_))));

    let mut d = o.data.clone();
    d.final_opening.rows[0].pop();
    d.final_opening.boundaries.pop();
    let round = d.rounds.len();
    assert_eq!(reference::verify(&o.cfg, &d).err(), Some(Error::Opening { round }));
    assert!(sizes::checked_verify(&o.cfg, &d).is_none());

    let mut d = o.data.clone();
    d.final_opening.rows[0].pop();
    assert!(matches!(
        reference::verify(&o.cfg, &d),
        Err(Error::Merkle { round: r, query: 0 }) if r == round
    ));
    assert!(sizes::checked_verify(&o.cfg, &d).is_none());

    let mut ungrounded = o.cfg.clone();
    ungrounded.final_pow_bits = 24;
    ungrounded.num_variables = 1000;
    assert_eq!(reference::verify(&ungrounded, &o.data).err(), Some(Error::Pow));
    assert!(sizes::checked_verify(&ungrounded, &o.data).is_none());
}

/// The stored circuit accepts the proof it was built from and no other input
/// in its place.
#[test]
fn the_circuit_of_an_opening_accepts_its_proof() {
    let o = open_and_log(6, 2, 3, 12);
    let built = circuit::checked_build(&o.cfg, &o.data).expect("the openings expand");
    let values = built.circuit.eval_gates(&built.witness);
    assert!(values[built.output]);
    let (mut ands, mut xors, mut ors) = (0, 0, 0);
    for gate in built.circuit.get_gates() {
        match gate {
            Operation::Mul(..) => ands += 1,
            Operation::Add(..) => xors += 1,
            Operation::Or(..) => ors += 1,
        }
    }
    assert_eq!(
        built.counts,
        GateCounts { direct_and: ands, direct_xor: xors, direct_or: ors }
    );
    let mut s = reference::Challenger::new();
    reference::transcript(&o.cfg, &o.data, &mut s);
    assert_eq!(built.flushes, s.flushes());

    let n = built.witness.len();
    for at in [0, n / 3, n - 1] {
        let mut witness = built.witness.clone();
        witness[at] = !witness[at];
        assert!(!built.circuit.eval_gates(&witness)[built.output]);
    }

    let mut d = o.data.clone();
    d.final_opening.boundaries.pop();
    assert!(circuit::checked_build(&o.cfg, &d).is_none());
}

/// The proof with every message that stands on a wire zeroed.
fn placeholder(d: &reference::Data) -> reference::Data {
    fn zeros(xs: &mut [F]) {
        xs.iter_mut().for_each(|x| *x = F::zero());
    }
    fn opened(o: &mut reference::Opening) {
        o.rows.iter_mut().for_each(|r| zeros(r));
        o.boundaries.iter_mut().for_each(|b| *b = [0; 32]);
    }
    fn messages(v: &mut [reference::SumcheckRoundData]) {
        v.iter_mut().for_each(|m| zeros(&mut m.poly));
    }
    let mut d = d.clone();
    d.cap.fill(0);
    zeros(&mut d.initial_ood_answers);
    d.openings.iter_mut().for_each(|v| zeros(v));
    messages(&mut d.initial_sumcheck);
    for r in &mut d.rounds {
        r.cap.fill(0);
        zeros(&mut r.ood_answers);
        messages(&mut r.sumcheck);
        opened(&mut r.opening);
    }
    zeros(&mut d.final_poly);
    messages(&mut d.final_sumcheck);
    opened(&mut d.final_opening);
    d
}

/// Garbled from a placeholder before the proof is used, the circuit yields the
/// true label on the proof and the false label on a changed one.
#[test]
fn garbled_before_the_proof_the_circuit_tells_proofs_apart() {
    let o = open_and_log(6, 2, 3, 12);
    let ch = reference::transcript(&o.cfg, &o.data, &mut reference::Challenger::new());
    let mut b = CircuitAdapter::default();
    let blank = placeholder(&o.data);
    let shape = circuit::build_with_prefix(&mut b, &o.cfg, &blank, &ch, circuit::NoPrefix);
    assert!(shape.witness.iter().filter(|&&bit| bit).count() < shape.witness.len() / 2);
    let g = garble(&b, shape.witness.len(), shape.output);
    let accept = g.output0 ^ g.delta;

    let own = circuit::build(&o.cfg, &o.data);
    assert_eq!(own.witness.len(), shape.witness.len());
    let e = evaluate(&b, &g, &own.witness);
    assert!(e.value);
    assert_eq!(e.label, accept);

    let mut changed = o.data.clone();
    changed.openings[0][0] = changed.openings[0][0].plus(F::one());
    let mut other = CircuitAdapter::default();
    let seen = circuit::build_with_prefix(&mut other, &o.cfg, &changed, &ch, circuit::NoPrefix);
    let e = evaluate(&b, &g, &seen.witness);
    assert!(!e.value);
    assert_eq!(e.label, g.output0);
    assert_ne!(e.label, accept);
}

/// A builder that keeps the value on every wire and no gates.
struct Evaluator {
    values: Vec<bool>,
    counts: GateCounts,
}

impl Evaluator {
    fn new() -> Self {
        let mut values = Vec::new();
        values.push(false);
        values.push(true);
        Self {
            values,
            counts: GateCounts { direct_and: 0, direct_xor: 0, direct_or: 0 },
        }
    }

    fn push(&mut self, v: bool) -> usize {
        self.values.push(v);
        self.values.len() - 1
    }
}

impl CircuitTrait for Evaluator {
    fn view(&self) -> Netlist {
        unreachable!()
    }

    fn inv(&self) -> bool {
        true
    }

    fn lemma_inv(&self) {}

    fn fresh_one(&mut self) -> usize {
        self.push(false)
    }

    fn zero(&mut self) -> usize {
        0
    }

    fn one(&mut self) -> usize {
        1
    }

    fn xor_wire(&mut self, x: usize, y: usize) -> usize {
        if x == y {
            0
        } else if x == 0 {
            y
        } else if y == 0 {
            x
        } else {
            self.counts.direct_xor += 1;
            self.push(self.values[x] ^ self.values[y])
        }
    }

    fn or_wire(&mut self, x: usize, y: usize) -> usize {
        if x == 1 || y == 1 {
            1
        } else if x == 0 || x == y {
            y
        } else if y == 0 {
            x
        } else {
            self.counts.direct_or += 1;
            self.push(self.values[x] | self.values[y])
        }
    }

    fn and_wire(&mut self, x: usize, y: usize) -> usize {
        if x == 0 || y == 0 {
            0
        } else if x == 1 || x == y {
            y
        } else if y == 1 {
            x
        } else {
            self.counts.direct_and += 1;
            self.push(self.values[x] & self.values[y])
        }
    }

    fn gate_counts(&self) -> GateCounts {
        self.counts
    }

    fn next_wire(&self) -> usize {
        self.values.len()
    }
}

impl ValuedBuilder for Evaluator {
    fn set_input(&mut self, wire: usize, bit: bool) {
        self.values[wire] = bit;
    }
}

/// The full verifier circuit: the STARK inputs first, then the WHIR inputs, then
/// the gates. The query indices the Merkle paths are expanded for come from
/// `honest`'s run, so that a tampered `inp` (whose transcript moves the queries)
/// still gets paths to walk and is rejected by the circuit's own checks.
fn build_full(b: &mut Evaluator, inp: &Inputs, honest: &Inputs) -> (circuit::Shape, usize) {
    let sin = stark_circuit::Inputs::allocate(b, &inp.sdata);
    let (_, ch) = transcript(honest, &honest.sdata, &mut reference::Challenger::new());
    let layers = Layers { cfg: &inp.scfg, air: &inp.air, inputs: &sin };
    let shape = circuit::build_with_prefix(b, &inp.wcfg, &inp.wdata, &ch, layers);
    let bits = sin.witness.len() + shape.witness.len();
    (shape, bits)
}

/// The full verifier -- zerocheck, column batching, ring switch, WHIR -- as a
/// circuit, evaluated on a real proof of one permutation.
#[test]
fn full_verifier_circuit_accepts_real_keccak_stark_proofs() {
    let p = params(5);
    let run = prove_and_log(&p);
    let inp = inputs(&p, &run);
    let mut b = Evaluator::new();
    let (shape, bits) = build_full(&mut b, &inp, &inp);
    assert!(b.values[shape.output], "the full verifier circuit accepts");
    assert_eq!(shape.profile.total(), b.counts.non_free());
    for (k, (phase, _)) in shape.profile.phases.iter().enumerate() {
        assert!(shape.profile.phases[..k].iter().all(|(p, _)| p != phase));
    }
    assert_eq!((b.counts.non_free(), bits), (44_573_121, 586_240));
}

/// The same circuit on a proof with an opened value changed.
#[test]
fn full_verifier_circuit_rejects_a_changed_value() {
    let p = Params { term_bits: 16, ..params(5) };
    let run = prove_and_log(&p);
    let inp = inputs(&p, &run);
    let mut bad = inp.clone();
    bad.sdata.values[7] = bad.sdata.values[7].plus(F::one());
    let mut b = Evaluator::new();
    let (shape, _) = build_full(&mut b, &bad, &inp);
    assert!(!b.values[shape.output], "a changed value is rejected");
}

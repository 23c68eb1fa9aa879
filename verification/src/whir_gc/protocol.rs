//! The mathematical WHIR verifier over `GF(2^128)`: what its transcript draws
//! and which proofs it accepts.
//!
//! Everything is stated over bits, bytes and sequences, with the byte hash as
//! a parameter, so that the plain verifier and the circuit speak of the same
//! functions.
use super::bytes;
use super::field;
use super::field::Elt;
use super::reference::{Config, RoundConfig};
use crate::merkle;
use vstd::arithmetic::power2::pow2;
use vstd::prelude::*;

verus! {

/// A byte hash.
pub type ByteHash = spec_fn(Seq<u8>) -> Seq<u8>;

// ---------------------------------------------------------------------------
// The sponge.
// ---------------------------------------------------------------------------

/// How a sponge's state changes: a byte in, or a byte out.
#[verifier::reject_recursive_types(St)]
pub struct Machine<St> {
    pub absorb: spec_fn(St, u8) -> St,
    pub draw: spec_fn(St) -> (St, u8),
}

/// The buffers of a hash challenger.
pub struct Buffers {
    pub input: Seq<u8>,
    pub output: Seq<u8>,
    /// The number of times the input was hashed.
    pub flushes: nat,
}

pub open spec fn empty_buffers() -> Buffers {
    Buffers { input: Seq::empty(), output: Seq::empty(), flushes: 0 }
}

/// A byte absorbed invalidates what was left to draw.
pub open spec fn buffers_absorb(s: Buffers, b: u8) -> Buffers {
    Buffers { input: s.input.push(b), output: Seq::empty(), flushes: s.flushes }
}

/// When nothing is left to draw the input is hashed, the digest chaining into
/// the input; bytes are drawn from the digest's end.
pub open spec fn buffers_draw(h: ByteHash, s: Buffers) -> (Buffers, u8) {
    let full = if s.output.len() == 0 {
        Buffers { input: h(s.input), output: h(s.input), flushes: s.flushes + 1 }
    } else {
        s
    };
    (
        Buffers {
            input: full.input,
            output: full.output.drop_last(),
            flushes: full.flushes,
        },
        full.output.last(),
    )
}

/// The hash challenger over `h`.
pub open spec fn hash_machine(h: ByteHash) -> Machine<Buffers> {
    Machine {
        absorb: |s: Buffers, b: u8| buffers_absorb(s, b),
        draw: |s: Buffers| buffers_draw(h, s),
    }
}

pub open spec fn absorb_all<St>(m: Machine<St>, st: St, bytes: Seq<u8>) -> St
    decreases bytes.len(),
{
    if bytes.len() == 0 {
        st
    } else {
        (m.absorb)(absorb_all(m, st, bytes.drop_last()), bytes.last())
    }
}

pub open spec fn draw_all<St>(m: Machine<St>, st: St, n: nat) -> (St, Seq<u8>)
    decreases n,
{
    if n == 0 {
        (st, Seq::empty())
    } else {
        let (s, earlier) = draw_all(m, st, (n - 1) as nat);
        let (t, b) = (m.draw)(s);
        (t, earlier.push(b))
    }
}

pub open spec fn absorb_elt<St>(m: Machine<St>, st: St, x: Elt) -> St {
    absorb_all(m, st, bytes::bytes_of_bits(x))
}

pub open spec fn absorb_elts<St>(m: Machine<St>, st: St, xs: Seq<Elt>) -> St
    decreases xs.len(),
{
    if xs.len() == 0 {
        st
    } else {
        absorb_elt(m, absorb_elts(m, st, xs.drop_last()), xs.last())
    }
}

/// Sixteen bytes as an element.
pub open spec fn draw_elt<St>(m: Machine<St>, st: St) -> (St, Elt) {
    let (s, b) = draw_all(m, st, 16);
    (s, bytes::bits_of_bytes(b))
}

pub open spec fn draw_elts<St>(m: Machine<St>, st: St, n: nat) -> (St, Seq<Elt>)
    decreases n,
{
    if n == 0 {
        (st, Seq::empty())
    } else {
        let (s, earlier) = draw_elts(m, st, (n - 1) as nat);
        let (t, x) = draw_elt(m, s);
        (t, earlier.push(x))
    }
}

/// The low `n` bits of eight bytes.
pub open spec fn draw_low<St>(m: Machine<St>, st: St, n: nat) -> (St, Seq<bool>) {
    let (s, b) = draw_all(m, st, 8);
    (s, bytes::bits_of_bytes(b).take(n as int))
}

/// A grinding check: absorb the witness, then `n` drawn bits must be zero.
pub open spec fn check_witness<St>(m: Machine<St>, st: St, n: nat, witness: Elt) -> (St, bool) {
    if n == 0 {
        (st, true)
    } else {
        let (s, low) = draw_low(m, absorb_elt(m, st, witness), n);
        (s, bytes::nat_of(low) == 0)
    }
}

// ---------------------------------------------------------------------------
// The queries.
// ---------------------------------------------------------------------------

/// Draws spent on the queries: none when every position is opened.
pub open spec fn query_draws(width: nat, queries: nat) -> nat {
    if queries >= pow2(width) {
        0
    } else {
        queries
    }
}

/// The greatest `d` with `2^d <= n`, for `n > 0`.
pub open spec fn log2(n: nat) -> nat
    decreases n,
{
    if n <= 1 {
        0
    } else {
        1 + log2(n / 2)
    }
}

pub proof fn lemma_log2(n: nat)
    requires
        n > 0,
    ensures
        pow2(log2(n)) <= n < pow2(log2(n) + 1),
    decreases n,
{
    vstd::arithmetic::power2::lemma2_to64();
    if n > 1 {
        lemma_log2(n / 2);
        vstd::arithmetic::power2::lemma_pow2_unfold(log2(n));
        vstd::arithmetic::power2::lemma_pow2_unfold(log2(n) + 1);
    }
}

/// One stratum partition per set bit of the count, deepest first.
pub open spec fn summand_depths(n: nat) -> Seq<nat>
    decreases n,
{
    if n == 0 {
        Seq::empty()
    } else {
        seq![log2(n)] + (if pow2(log2(n)) <= n && pow2(log2(n)) > 0 {
            summand_depths((n - pow2(log2(n))) as nat)
        } else {
            Seq::empty()
        })
    }
}

/// The first `k` draws of a partition of depth `depth`: stratum `j`'s query has
/// its drawn bits low and the bits of `j` high.
pub open spec fn strata<St>(m: Machine<St>, st: St, width: nat, depth: nat, k: nat) -> (
    St,
    Seq<nat>,
)
    decreases k,
{
    if k == 0 {
        (st, Seq::empty())
    } else {
        let (s, earlier) = strata(m, st, width, depth, (k - 1) as nat);
        let low = (width - depth) as nat;
        let (t, b) = draw_low(m, s, low);
        (t, earlier.push(((k - 1) * pow2(low) + bytes::nat_of(b)) as nat))
    }
}

/// The draws of the partitions `depths`.
pub open spec fn partitions<St>(m: Machine<St>, st: St, width: nat, depths: Seq<nat>) -> (
    St,
    Seq<nat>,
)
    decreases depths.len(),
{
    if depths.len() == 0 {
        (st, Seq::empty())
    } else {
        let (s, earlier) = partitions(m, st, width, depths.drop_last());
        let (t, more) = strata(m, s, width, depths.last(), pow2(depths.last()));
        (t, earlier + more)
    }
}

/// The queried positions: all of them, or stratified draws.
pub open spec fn stir_queries<St>(m: Machine<St>, st: St, width: nat, queries: nat) -> (
    St,
    Seq<nat>,
) {
    let draws = query_draws(width, queries);
    if draws == 0 {
        (st, Seq::new(pow2(width), |i: int| i as nat))
    } else {
        partitions(m, st, width, summand_depths(draws))
    }
}

/// The number of queried positions.
pub open spec fn query_count(width: nat, queries: nat) -> nat {
    if query_draws(width, queries) == 0 {
        pow2(width)
    } else {
        queries
    }
}

/// The draws of some partitions.
pub open spec fn total_strata(depths: Seq<nat>) -> nat
    decreases depths.len(),
{
    if depths.len() == 0 {
        0
    } else {
        total_strata(depths.drop_last()) + pow2(depths.last())
    }
}

proof fn lemma_total_strata_first(a: nat, rest: Seq<nat>)
    ensures
        total_strata(seq![a] + rest) == pow2(a) + total_strata(rest),
    decreases rest.len(),
{
    if rest.len() == 0 {
        assert((seq![a] + rest).drop_last() =~= Seq::<nat>::empty());
        assert((seq![a] + rest).last() == a);
        assert(total_strata(Seq::<nat>::empty()) == 0);
    } else {
        lemma_total_strata_first(a, rest.drop_last());
        assert((seq![a] + rest).drop_last() =~= seq![a] + rest.drop_last());
    }
}

proof fn lemma_summands(n: nat)
    ensures
        total_strata(summand_depths(n)) == n,
    decreases n,
{
    if n > 0 {
        lemma_log2(n);
        vstd::arithmetic::power2::lemma_pow2_pos(log2(n));
        lemma_summands((n - pow2(log2(n))) as nat);
        lemma_total_strata_first(log2(n), summand_depths((n - pow2(log2(n))) as nat));
    }
}

proof fn lemma_strata_len<St>(m: Machine<St>, st: St, width: nat, depth: nat, k: nat)
    ensures
        strata(m, st, width, depth, k).1.len() == k,
    decreases k,
{
    if k > 0 {
        lemma_strata_len(m, st, width, depth, (k - 1) as nat);
    }
}

proof fn lemma_partitions_len<St>(m: Machine<St>, st: St, width: nat, depths: Seq<nat>)
    ensures
        partitions(m, st, width, depths).1.len() == total_strata(depths),
    decreases depths.len(),
{
    if depths.len() > 0 {
        lemma_partitions_len(m, st, width, depths.drop_last());
        lemma_strata_len(
            m,
            partitions(m, st, width, depths.drop_last()).0,
            width,
            depths.last(),
            pow2(depths.last()),
        );
    }
}

/// The number of queries depends on the configuration only.
pub proof fn law_query_count<St>(m: Machine<St>, st: St, width: nat, queries: nat)
    ensures
        stir_queries(m, st, width, queries).1.len() == query_count(width, queries),
{
    lemma_summands(query_draws(width, queries));
    lemma_partitions_len(m, st, width, summand_depths(query_draws(width, queries)));
}

// ---------------------------------------------------------------------------
// The proof's messages and the transcript.
// ---------------------------------------------------------------------------

/// One sumcheck message.
pub struct SumcheckM {
    pub c0: Elt,
    pub c_inf: Elt,
    pub witness: Elt,
}

/// The sibling digests of one opening: per query, one per level, level 0
/// first.
pub type Paths = Seq<Seq<Seq<u8>>>;

/// What is authenticated of one opening: per query, the row whose leaf starts
/// the path, and the path.
pub struct Auth {
    pub rows: Seq<Seq<Elt>>,
    pub paths: Paths,
}

pub struct RoundM {
    pub cap: Seq<u8>,
    pub ood_answers: Seq<Elt>,
    pub pow_witness: Elt,
    pub seed_sumcheck: Seq<u8>,
    pub sumcheck: Seq<SumcheckM>,
    /// The previous commitment's rows at this round's queries.
    pub rows: Seq<Seq<Elt>>,
}

/// A proof's messages.
pub struct ProofM {
    pub seed_commitment: Seq<u8>,
    pub seed_virtual: Seq<Seq<u8>>,
    pub seed_claim: Seq<Seq<u8>>,
    pub seed_whir_batching: Seq<u8>,
    pub seed_initial_sumcheck: Seq<u8>,
    pub seed_final_sumcheck: Seq<u8>,
    pub cap: Seq<u8>,
    pub initial_ood_answers: Seq<Elt>,
    pub openings: Seq<Seq<Elt>>,
    pub initial_sumcheck: Seq<SumcheckM>,
    pub rounds: Seq<RoundM>,
    pub final_poly: Seq<Elt>,
    pub final_pow_witness: Elt,
    pub final_sumcheck: Seq<SumcheckM>,
    pub final_rows: Seq<Seq<Elt>>,
}

/// What a round draws.
pub struct RoundDraws {
    pub ood_points: Seq<Elt>,
    pub queries: Seq<nat>,
    pub combination: Elt,
    pub folding: Seq<Elt>,
}

/// What the transcript draws.
pub struct Draws {
    pub initial_ood_points: Seq<Elt>,
    pub opening_points: Seq<Elt>,
    pub alpha: Elt,
    pub initial_folding: Seq<Elt>,
    pub rounds: Seq<RoundDraws>,
    pub final_queries: Seq<nat>,
    pub final_folding: Seq<Elt>,
    pub pow_ok: bool,
}

/// Per sumcheck round: absorb the message, grind, draw the randomness.
pub open spec fn sumcheck_draws<St>(
    m: Machine<St>,
    st: St,
    rounds: Seq<SumcheckM>,
    pow_bits: nat,
) -> (St, Seq<Elt>, bool)
    decreases rounds.len(),
{
    if rounds.len() == 0 {
        (st, Seq::empty(), true)
    } else {
        let (s, earlier, ok) = sumcheck_draws(m, st, rounds.drop_last(), pow_bits);
        let r = rounds.last();
        let (t, ground) = check_witness(
            m,
            absorb_elt(m, absorb_elt(m, s, r.c0), r.c_inf),
            pow_bits,
            r.witness,
        );
        let (u, x) = draw_elt(m, t);
        (u, earlier.push(x), ok && ground)
    }
}

/// Per out-of-domain sample of the commitment: its seed, the point, the answer.
pub open spec fn virtual_draws<St>(
    m: Machine<St>,
    st: St,
    answers: Seq<Elt>,
    seeds: Seq<Seq<u8>>,
) -> (St, Seq<Elt>)
    decreases answers.len(),
{
    if answers.len() == 0 {
        (st, Seq::empty())
    } else {
        let k = (answers.len() - 1) as int;
        let (s, earlier) = virtual_draws(m, st, answers.drop_last(), seeds);
        let (t, x) = draw_elt(m, absorb_all(m, s, seeds[k]));
        (absorb_elt(m, t, answers.last()), earlier.push(x))
    }
}

/// Per opening claim: its seed, the point unless it is given, the evaluations.
pub open spec fn claim_draws<St>(
    m: Machine<St>,
    st: St,
    openings: Seq<Seq<Elt>>,
    seeds: Seq<Seq<u8>>,
    given: bool,
) -> (St, Seq<Elt>)
    decreases openings.len(),
{
    if openings.len() == 0 {
        (st, Seq::empty())
    } else {
        let k = (openings.len() - 1) as int;
        let (s, earlier) = claim_draws(m, st, openings.drop_last(), seeds, given);
        let seeded = absorb_all(m, s, seeds[k]);
        let (t, x) = if given {
            (seeded, field::zero128())
        } else {
            draw_elt(m, seeded)
        };
        (absorb_elts(m, t, openings.last()), earlier.push(x))
    }
}

/// Per out-of-domain sample of a round: the point, then the answer.
pub open spec fn ood_draws<St>(m: Machine<St>, st: St, answers: Seq<Elt>) -> (St, Seq<Elt>)
    decreases answers.len(),
{
    if answers.len() == 0 {
        (st, Seq::empty())
    } else {
        let (s, earlier) = ood_draws(m, st, answers.drop_last());
        let (t, x) = draw_elt(m, s);
        (absorb_elt(m, t, answers.last()), earlier.push(x))
    }
}

/// One round: the cap, the out-of-domain samples, grinding, the queries, the
/// combination and the round's sumcheck.
pub open spec fn round_draws<St>(m: Machine<St>, st: St, rc: RoundConfig, rd: RoundM) -> (
    St,
    RoundDraws,
    bool,
) {
    let s0 = absorb_all(m, st, rd.cap);
    let (s1, ood_points) = ood_draws(m, s0, rd.ood_answers);
    let (s2, ground) = check_witness(m, s1, rc.pow_bits as nat, rd.pow_witness);
    let (s3, queries) = stir_queries(m, s2, rc.index_width as nat, rc.num_queries as nat);
    let (s4, combination) = draw_elt(m, s3);
    let s5 = absorb_all(m, s4, rd.seed_sumcheck);
    let (s6, folding, ok) = sumcheck_draws(m, s5, rd.sumcheck, rc.folding_pow_bits as nat);
    (s6, RoundDraws { ood_points, queries, combination, folding }, ground && ok)
}

pub open spec fn rounds_draws<St>(
    m: Machine<St>,
    st: St,
    cfgs: Seq<RoundConfig>,
    rounds: Seq<RoundM>,
) -> (St, Seq<RoundDraws>, bool)
    decreases rounds.len(),
{
    if rounds.len() == 0 {
        (st, Seq::empty(), true)
    } else {
        let k = (rounds.len() - 1) as int;
        let (s, earlier, ok) = rounds_draws(m, st, cfgs, rounds.drop_last());
        let (t, r, ground) = round_draws(m, s, cfgs[k], rounds.last());
        (t, earlier.push(r), ok && ground)
    }
}

/// The commitment: its seed and its cap.
pub open spec fn absorb_commitment<St>(m: Machine<St>, st: St, p: ProofM) -> St {
    absorb_all(m, absorb_all(m, st, p.seed_commitment), p.cap)
}

/// The final polynomial, grinding, the final queries and the final sumcheck.
pub open spec fn final_draws<St>(m: Machine<St>, st: St, cfg: Config, p: ProofM) -> (
    St,
    Seq<nat>,
    Seq<Elt>,
    bool,
) {
    let s0 = absorb_elts(m, st, p.final_poly);
    let (s1, ground) = check_witness(m, s0, cfg.final_pow_bits as nat, p.final_pow_witness);
    let (s2, queries) = stir_queries(
        m,
        s1,
        cfg.final_index_width as nat,
        cfg.final_queries as nat,
    );
    let s3 = absorb_all(m, s2, p.seed_final_sumcheck);
    let (s4, folding, ok) = sumcheck_draws(
        m,
        s3,
        p.final_sumcheck,
        cfg.final_folding_pow_bits as nat,
    );
    (s4, queries, folding, ground && ok)
}

/// The transcript after the commitment: the out-of-domain samples, the claims,
/// the batching challenge, the initial sumcheck, the rounds and the end.
pub open spec fn transcript<St>(m: Machine<St>, st: St, cfg: Config, p: ProofM) -> (St, Draws) {
    let (s1, initial_ood_points) = virtual_draws(m, st, p.initial_ood_answers, p.seed_virtual);
    let (s2, opening_points) = claim_draws(
        m,
        s1,
        p.openings,
        p.seed_claim,
        cfg.given_points,
    );
    let (s3, alpha) = draw_elt(m, absorb_all(m, s2, p.seed_whir_batching));
    let s4 = absorb_all(m, s3, p.seed_initial_sumcheck);
    let (s5, initial_folding, ok1) = sumcheck_draws(
        m,
        s4,
        p.initial_sumcheck,
        cfg.initial_folding_pow_bits as nat,
    );
    let (s6, rounds, ok2) = rounds_draws(m, s5, cfg.rounds@, p.rounds);
    let (s7, final_queries, final_folding, ok3) = final_draws(m, s6, cfg, p);
    (
        s7,
        Draws {
            initial_ood_points,
            opening_points,
            alpha,
            initial_folding,
            rounds,
            final_queries,
            final_folding,
            pow_ok: ok1 && ok2 && ok3,
        },
    )
}

// ---------------------------------------------------------------------------
// Arithmetic.
// ---------------------------------------------------------------------------

/// `y` squared `k` times.
pub open spec fn squared(y: Elt, k: nat) -> Elt
    decreases k,
{
    if k == 0 {
        y
    } else {
        let v = squared(y, (k - 1) as nat);
        field::times(v, v)
    }
}

/// `[y^(2^(m-1)), ..., y^2, y]`.
pub open spec fn expand_univariate(y: Elt, m: nat) -> Seq<Elt> {
    Seq::new(m, |i: int| squared(y, (m - 1 - i) as nat))
}

/// `eq(p, r) = prod (p_i + r_i + 1)`.
pub open spec fn eq_eval(p: Seq<Elt>, r: Seq<Elt>) -> Elt
    decreases p.len(),
{
    if p.len() == 0 {
        field::one128()
    } else {
        field::times(
            eq_eval(p.drop_last(), r.drop_last()),
            field::plus(field::plus(p.last(), r.last()), field::one128()),
        )
    }
}

/// The weight of a direct point: `prod (r_i (p_i - 1) + 1)`.
pub open spec fn select_point_weight(p: Seq<Elt>, r: Seq<Elt>) -> Elt
    decreases p.len(),
{
    if p.len() == 0 {
        field::one128()
    } else {
        field::times(
            select_point_weight(p.drop_last(), r.drop_last()),
            field::plus(
                field::times(r.last(), field::plus(p.last(), field::one128())),
                field::one128(),
            ),
        )
    }
}

/// The quadratic through `e0` at 0, `e1` at 1 with leading coefficient
/// `e_inf`, at `r`.
pub open spec fn extrapolate_01inf(e0: Elt, e1: Elt, e_inf: Elt, r: Elt) -> Elt {
    let one = field::one128();
    field::plus(
        field::plus(field::times(e0, field::plus(one, r)), field::times(e1, r)),
        field::times(e_inf, field::times(r, field::plus(r, one))),
    )
}

pub open spec fn sumcheck_round(claim: Elt, c0: Elt, c_inf: Elt, r: Elt) -> Elt {
    extrapolate_01inf(c0, field::plus(claim, c0), c_inf, r)
}

/// The claim after a sumcheck.
pub open spec fn sumcheck_claim(claim: Elt, rounds: Seq<SumcheckM>, folding: Seq<Elt>) -> Elt
    decreases rounds.len(),
{
    if rounds.len() == 0 {
        claim
    } else {
        let r = rounds.last();
        sumcheck_round(
            sumcheck_claim(claim, rounds.drop_last(), folding),
            r.c0,
            r.c_inf,
            folding[rounds.len() - 1],
        )
    }
}

/// One multilinear variable bound to `x`, the variable that pairs adjacent
/// evaluations.
pub open spec fn bind(evals: Seq<Elt>, x: Elt) -> Seq<Elt> {
    Seq::new(
        evals.len() / 2,
        |j: int|
            field::plus(
                evals[2 * j],
                field::times(x, field::plus(evals[2 * j + 1], evals[2 * j])),
            ),
    )
}

/// The multilinear extension of `evals` at `point`.
pub open spec fn eval_multilinear(evals: Seq<Elt>, point: Seq<Elt>) -> Elt
    decreases point.len(),
{
    if point.len() == 0 {
        evals[0]
    } else {
        eval_multilinear(bind(evals, point.last()), point.drop_last())
    }
}

/// One variable of a coefficient table bound to `c`.
pub open spec fn bind_coefficients(coeffs: Seq<Elt>, c: Elt) -> Seq<Elt> {
    Seq::new(
        coeffs.len() / 2,
        |j: int| field::plus(coeffs[2 * j], field::times(coeffs[2 * j + 1], c)),
    )
}

/// The multilinear polynomial with the coefficients `coeffs` at `point`.
pub open spec fn eval_coefficients(coeffs: Seq<Elt>, point: Seq<Elt>) -> Elt
    decreases point.len(),
{
    if point.len() == 0 {
        coeffs[0]
    } else {
        eval_coefficients(bind_coefficients(coeffs, point.last()), point.drop_last())
    }
}

/// The Cantor-basis vector with the bits of `index`, from basis vector `r` on.
pub open spec fn domain_point_from(index: nat, r: nat) -> Elt
    decreases index,
{
    if index == 0 {
        field::zero128()
    } else {
        let higher = domain_point_from(index / 2, r + 1);
        if index % 2 == 1 {
            field::plus(field::bits_of(field::cantor(r as int), 128), higher)
        } else {
            higher
        }
    }
}

pub open spec fn domain_point(index: nat) -> Elt {
    domain_point_from(index, 0)
}

/// `j` iterations of `v -> v^2 + v`.
pub open spec fn subspace_polynomial(j: nat, x: Elt) -> Elt
    decreases j,
{
    if j == 0 {
        x
    } else {
        let v = subspace_polynomial((j - 1) as nat, x);
        field::plus(field::times(v, v), v)
    }
}

/// The multilinear point of a queried position: `(S_{n-1}(x), ..., S_0(x))`.
pub open spec fn query_point(n: nat, index: nat) -> Seq<Elt> {
    Seq::new(n, |i: int| subspace_polynomial((n - 1 - i) as nat, domain_point(index)))
}

/// `claim + sum chi^(shift + i) e_i`.
pub open spec fn combine(claim: Elt, chi: Elt, shift: nat, evals: Seq<Elt>) -> Elt
    decreases evals.len(),
{
    if evals.len() == 0 {
        claim
    } else {
        field::plus(
            combine(claim, chi, shift, evals.drop_last()),
            field::times(field::power(chi, (shift + evals.len() - 1) as nat), evals.last()),
        )
    }
}

// ---------------------------------------------------------------------------
// The Merkle openings.
// ---------------------------------------------------------------------------

/// The leaf of a row: the hash of its elements' bytes.
pub open spec fn row_bytes(row: Seq<Elt>) -> Seq<u8>
    decreases row.len(),
{
    if row.len() == 0 {
        Seq::empty()
    } else {
        row_bytes(row.drop_last()) + bytes::bytes_of_bits(row.last())
    }
}

/// The node above a leaf after `level` levels of a path.
pub open spec fn climb(h: ByteHash, i: nat, leaf: Seq<u8>, sibs: Seq<Seq<u8>>, level: nat) -> Seq<
    u8,
>
    decreases level,
{
    if level == 0 {
        leaf
    } else {
        let below = (level - 1) as nat;
        let cur = climb(h, i, leaf, sibs, below);
        if merkle::ancestor(i as int, below) % 2 == 1 {
            h(sibs[below as int] + cur)
        } else {
            h(cur + sibs[below as int])
        }
    }
}

/// The `k`-th root of a cap.
pub open spec fn cap_root(cap: Seq<u8>, k: int) -> Seq<u8> {
    cap.subrange(32 * k, 32 * k + 32)
}

/// A cap holds whole roots, a power of two of them, no more than leaves.
pub open spec fn cap_shaped(cap: Seq<u8>, width: nat) -> bool {
    &&& cap.len() == 32 * pow2(log2(cap.len() / 32))
    &&& log2(cap.len() / 32) <= width
}

/// The levels of a path below the cap.
pub open spec fn path_depth(cap: Seq<u8>, width: nat) -> nat {
    (width - log2(cap.len() / 32)) as nat
}

/// Query `q`'s path reaches its root in the cap.
pub open spec fn query_authentic(
    h: ByteHash,
    rows: Seq<Seq<Elt>>,
    paths: Paths,
    cap: Seq<u8>,
    queries: Seq<nat>,
    width: nat,
    q: int,
) -> bool {
    let depth = path_depth(cap, width);
    climb(h, queries[q], h(row_bytes(rows[q])), paths[q], depth) == cap_root(
        cap,
        merkle::ancestor(queries[q] as int, depth),
    )
}

pub open spec fn opening_authentic(
    h: ByteHash,
    rows: Seq<Seq<Elt>>,
    paths: Paths,
    cap: Seq<u8>,
    queries: Seq<nat>,
    width: nat,
) -> bool {
    forall|q: int|
        0 <= q < queries.len() ==> #[trigger] query_authentic(
            h,
            rows,
            paths,
            cap,
            queries,
            width,
            q,
        )
}

// ---------------------------------------------------------------------------
// The verifier.
// ---------------------------------------------------------------------------

/// One batched constraint: `eq` weights at some points, then direct weights at
/// others.
pub struct ConstraintM {
    pub challenge: Elt,
    pub arity: nat,
    pub initial_power: nat,
    pub eq_points: Seq<Seq<Elt>>,
    pub direct_points: Seq<Seq<Elt>>,
}

/// The number of opening claims.
pub open spec fn claim_count(cfg: Config, p: ProofM) -> nat {
    if cfg.claims@.len() < p.openings.len() {
        cfg.claims@.len()
    } else {
        p.openings.len()
    }
}

/// The points of claim `i`: the given one, or one per column selector, the
/// selector's coordinates in front of the row point.
pub open spec fn claim_points(cfg: Config, draws: Draws, given: Seq<Seq<Elt>>, i: int) -> Seq<
    Seq<Elt>,
> {
    if cfg.given_points {
        seq![given[i]]
    } else {
        let shape = cfg.claims@[i];
        let row = expand_univariate(draws.opening_points[i], shape.row_vars as nat);
        Seq::new(
            shape.selectors@.len(),
            |j: int| Seq::new(shape.selectors@[j]@.len(), |k: int| shape.selectors@[j]@[k]@) + row,
        )
    }
}

/// The points of the first `n` claims.
pub open spec fn claims_points(cfg: Config, draws: Draws, given: Seq<Seq<Elt>>, n: nat) -> Seq<
    Seq<Elt>,
>
    decreases n,
{
    if n == 0 {
        Seq::empty()
    } else {
        claims_points(cfg, draws, given, (n - 1) as nat) + claim_points(
            cfg,
            draws,
            given,
            n - 1,
        )
    }
}

/// The points of out-of-domain samples.
pub open spec fn ood_expanded(ys: Seq<Elt>, m: nat) -> Seq<Seq<Elt>> {
    Seq::new(ys.len(), |i: int| expand_univariate(ys[i], m))
}

/// The evaluations of the first `n` claims.
pub open spec fn claims_evals(p: ProofM, n: nat) -> Seq<Elt>
    decreases n,
{
    if n == 0 {
        Seq::empty()
    } else {
        claims_evals(p, (n - 1) as nat) + p.openings[n - 1]
    }
}

/// The commitment's constraint.
pub open spec fn initial_constraint(
    cfg: Config,
    p: ProofM,
    draws: Draws,
    given: Seq<Seq<Elt>>,
) -> ConstraintM {
    ConstraintM {
        challenge: draws.alpha,
        arity: cfg.num_variables as nat,
        initial_power: 0,
        eq_points: claims_points(cfg, draws, given, claim_count(cfg, p)) + ood_expanded(
            draws.initial_ood_points,
            cfg.num_variables as nat,
        ),
        direct_points: Seq::empty(),
    }
}

/// The commitment's claim: openings, then out-of-domain answers, under alpha.
pub open spec fn initial_claim(cfg: Config, p: ProofM, draws: Draws) -> Elt {
    combine(
        field::zero128(),
        draws.alpha,
        0,
        claims_evals(p, claim_count(cfg, p)) + p.initial_ood_answers,
    )
}

pub open spec fn reversed(s: Seq<Elt>) -> Seq<Elt> {
    Seq::new(s.len(), |i: int| s[s.len() - 1 - i])
}

/// The rows folded at `point`.
pub open spec fn folds(rows: Seq<Seq<Elt>>, point: Seq<Elt>) -> Seq<Elt> {
    Seq::new(rows.len(), |q: int| eval_multilinear(rows[q], point))
}

pub open spec fn query_points(n: nat, queries: Seq<nat>) -> Seq<Seq<Elt>> {
    Seq::new(queries.len(), |q: int| query_point(n, queries[q]))
}

/// The folding randomness before round `i`.
pub open spec fn folding_before(draws: Draws, i: nat) -> Seq<Elt> {
    if i == 0 {
        draws.initial_folding
    } else {
        draws.rounds[i - 1].folding
    }
}

/// The cap that round `i` opens: the previous commitment's.
pub open spec fn cap_before(p: ProofM, i: nat) -> Seq<u8> {
    if i == 0 {
        p.cap
    } else {
        p.rounds[i - 1].cap
    }
}

/// The claim after the initial sumcheck and the first `n` rounds.
pub open spec fn claim_after(cfg: Config, p: ProofM, draws: Draws, n: nat) -> Elt
    decreases n,
{
    if n == 0 {
        sumcheck_claim(initial_claim(cfg, p, draws), p.initial_sumcheck, draws.initial_folding)
    } else {
        let i = (n - 1) as nat;
        let rd = p.rounds[i as int];
        let rch = draws.rounds[i as int];
        let before = claim_after(cfg, p, draws, i);
        let with_ood = combine(before, rch.combination, 1, rd.ood_answers);
        let with_folds = combine(
            with_ood,
            rch.combination,
            1 + rd.ood_answers.len(),
            folds(rd.rows, reversed(folding_before(draws, i))),
        );
        sumcheck_claim(with_folds, rd.sumcheck, rch.folding)
    }
}

/// The constraint of round `i`.
pub open spec fn round_constraint(cfg: Config, draws: Draws, i: int) -> ConstraintM {
    let n = cfg.rounds@[i].num_variables as nat;
    let rch = draws.rounds[i];
    ConstraintM {
        challenge: rch.combination,
        arity: n,
        initial_power: 1,
        eq_points: ood_expanded(rch.ood_points, n),
        direct_points: query_points(n, rch.queries),
    }
}

/// The randomness of the initial sumcheck and the first `n` rounds.
pub open spec fn randomness_after(draws: Draws, n: nat) -> Seq<Elt>
    decreases n,
{
    if n == 0 {
        draws.initial_folding
    } else {
        randomness_after(draws, (n - 1) as nat) + draws.rounds[n - 1].folding
    }
}

/// A constraint's weight: arity `n` reads the first `n` coordinates of the
/// reversed randomness.
pub open spec fn constraint_weight(c: ConstraintM, rev: Seq<Elt>) -> Elt {
    let local = rev.take(c.arity as int);
    let eq_w = Seq::new(c.eq_points.len(), |i: int| eq_eval(c.eq_points[i], local));
    let direct_w = Seq::new(
        c.direct_points.len(),
        |i: int| select_point_weight(c.direct_points[i], local),
    );
    combine(field::zero128(), c.challenge, c.initial_power, eq_w + direct_w)
}

/// The weights of the commitment's constraint and of the first `n` rounds.
pub open spec fn weights(
    cfg: Config,
    p: ProofM,
    draws: Draws,
    given: Seq<Seq<Elt>>,
    rev: Seq<Elt>,
    n: nat,
) -> Elt
    decreases n,
{
    if n == 0 {
        field::plus(
            field::zero128(),
            constraint_weight(initial_constraint(cfg, p, draws, given), rev),
        )
    } else {
        field::plus(
            weights(cfg, p, draws, given, rev, (n - 1) as nat),
            constraint_weight(round_constraint(cfg, draws, n - 1), rev),
        )
    }
}

/// All the folding randomness, reversed.
pub open spec fn all_randomness(draws: Draws) -> Seq<Elt> {
    reversed(randomness_after(draws, draws.rounds.len()) + draws.final_folding)
}

/// The claim that the sumchecks end on.
pub open spec fn final_claim(cfg: Config, p: ProofM, draws: Draws) -> Elt {
    sumcheck_claim(
        claim_after(cfg, p, draws, draws.rounds.len()),
        p.final_sumcheck,
        draws.final_folding,
    )
}

/// The total weight at the end.
pub open spec fn final_weight(cfg: Config, p: ProofM, draws: Draws, given: Seq<Seq<Elt>>) -> Elt {
    weights(cfg, p, draws, given, all_randomness(draws), draws.rounds.len())
}

/// The final polynomial at the final randomness.
pub open spec fn final_value(p: ProofM, draws: Draws) -> Elt {
    eval_multilinear(p.final_poly, reversed(draws.final_folding))
}

/// The final query `q` folds to the final polynomial's value there.
pub open spec fn final_query_ok(p: ProofM, draws: Draws, q: int) -> bool {
    let n = draws.rounds.len();
    eval_coefficients(
        p.final_poly,
        query_point(log2(p.final_poly.len()), draws.final_queries[q]),
    ) == eval_multilinear(p.final_rows[q], reversed(folding_before(draws, n)))
}

/// The rows that round `i` opens, or the final ones after the last round.
pub open spec fn rows_of(p: ProofM, i: nat) -> Seq<Seq<Elt>> {
    if i < p.rounds.len() {
        p.rounds[i as int].rows
    } else {
        p.final_rows
    }
}

/// The queries of round `i`, or the final ones.
pub open spec fn queries_of(draws: Draws, i: nat) -> Seq<nat> {
    if i < draws.rounds.len() {
        draws.rounds[i as int].queries
    } else {
        draws.final_queries
    }
}

/// The width of round `i`'s queries, or of the final ones.
pub open spec fn width_of(cfg: Config, i: nat) -> nat {
    if i < cfg.rounds@.len() {
        cfg.rounds@[i as int].index_width as nat
    } else {
        cfg.final_index_width as nat
    }
}

/// Round `i`'s opening is authentic.
pub open spec fn round_authentic(
    h: ByteHash,
    cfg: Config,
    p: ProofM,
    auth: Seq<Auth>,
    draws: Draws,
    i: nat,
) -> bool {
    opening_authentic(
        h,
        auth[i as int].rows,
        auth[i as int].paths,
        cap_before(p, i),
        queries_of(draws, i),
        width_of(cfg, i),
    )
}

/// The closing identity.
pub open spec fn closes(cfg: Config, p: ProofM, draws: Draws, given: Seq<Seq<Elt>>) -> bool {
    final_claim(cfg, p, draws) == field::times(
        final_weight(cfg, p, draws, given),
        final_value(p, draws),
    )
}

/// Every check passes: grinding, every opened row against its root, the final
/// queries against the final polynomial, and the closing identity. `auth` holds
/// what is authenticated of each round's opening, and of the final one.
pub open spec fn accepts(
    h: ByteHash,
    cfg: Config,
    p: ProofM,
    auth: Seq<Auth>,
    draws: Draws,
    given: Seq<Seq<Elt>>,
) -> bool {
    &&& draws.pow_ok
    &&& forall|i: nat| i <= p.rounds.len() ==> #[trigger] round_authentic(
        h,
        cfg,
        p,
        auth,
        draws,
        i,
    )
    &&& forall|q: int|
        0 <= q < draws.final_queries.len() ==> #[trigger] final_query_ok(p, draws, q)
    &&& closes(cfg, p, draws, given)
}

// ---------------------------------------------------------------------------
// Facts about the arithmetic.
// ---------------------------------------------------------------------------

pub proof fn lemma_log2_pow2(k: nat)
    ensures
        log2(pow2(k)) == k,
    decreases k,
{
    vstd::arithmetic::power2::lemma2_to64();
    if k > 0 {
        vstd::arithmetic::power2::lemma_pow2_unfold(k);
        vstd::arithmetic::power2::lemma_pow2_pos((k - 1) as nat);
        lemma_log2_pow2((k - 1) as nat);
        assert(pow2(k) / 2 == pow2((k - 1) as nat));
    }
}

pub proof fn lemma_domain_len(index: nat, r: nat)
    ensures
        domain_point_from(index, r).len() == 128,
    decreases index,
{
    if index > 0 {
        lemma_domain_len(index / 2, r + 1);
    }
}

/// Combining one list and then another is combining both.
pub proof fn lemma_combine_concat(claim: Elt, chi: Elt, shift: nat, a: Seq<Elt>, b: Seq<Elt>)
    ensures
        combine(claim, chi, shift, a + b) == combine(
            combine(claim, chi, shift, a),
            chi,
            shift + a.len(),
            b,
        ),
    decreases b.len(),
{
    if b.len() == 0 {
        assert(a + b =~= a);
    } else {
        lemma_combine_concat(claim, chi, shift, a, b.drop_last());
        assert((a + b).drop_last() =~= a + b.drop_last());
    }
}

} // verus!

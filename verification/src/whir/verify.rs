//! The verifier's arithmetic on top of the transcript.
//!
//! The transcript runs first; the arithmetic only consumes challenges, never
//! feeds the sponge.
//!
//!   1. The initial constraint: per opening claim, each opening's point is the
//!      claim's row point with its column selector's coordinates appended; then
//!      the commitment's out-of-domain claims. Batched by `alpha`.
//!   2. The initial sumcheck.
//!   3. Per intermediate round the previous commitment is opened at the round's
//!      queries, each row folds at the previous folding randomness, the query
//!      index `q` becomes the point `g^q`; the out-of-domain answers and the
//!      folds are combined into the claim with powers that start at `gamma^1`,
//!      and the round's sumcheck runs.
//!   4. The last commitment's folds must equal the final polynomial at their
//!      points; the final sumcheck runs; with `R` all folding randomness, the
//!      claim must be the constraints' weight at `R` times the final polynomial
//!      at the final randomness.
use super::arith;
use super::model;
use super::pruned;
use super::pruned::{Digest, Poseidon2Tree};
use super::reference;
use super::reference::{Challenges, Draws, SumcheckRoundData, TranscriptConfig, TranscriptData};
use super::sponge;
use super::sponge::{Challenger, Sponge};
use crate::merkle;
use crate::poseidon2::ext4;
use crate::poseidon2::ext4::Quad;
use crate::poseidon2::field;
use crate::poseidon2::reference as permutation;
use vstd::arithmetic::power2::pow2;
use vstd::prelude::*;

verus! {

/// A claim's shape: the row point's arity and, per current opening, the column
/// selector's hypercube coordinates that follow it.
#[derive(Clone, Debug)]
pub struct ClaimShape {
    pub row_vars: usize,
    pub selectors: Vec<Vec<[u32; 4]>>,
}

/// One intermediate round's arithmetic parameters.
#[derive(Clone, Debug)]
pub struct RoundMath {
    /// Variables of the folded polynomial this round commits to.
    pub num_variables: usize,
    /// Generator of the folded domain the queries index.
    pub folded_domain_gen: u32,
}

/// Everything the verifier's arithmetic needs beyond the transcript's config.
#[derive(Clone, Debug)]
pub struct VerifyConfig {
    pub transcript: TranscriptConfig,
    /// Variables of the committed (stacked) polynomial.
    pub num_variables: usize,
    pub claims: Vec<ClaimShape>,
    pub rounds: Vec<RoundMath>,
    pub final_folded_domain_gen: u32,
}

/// A commitment opened at the transcript's queries.
#[derive(Clone, Debug)]
pub struct Opening {
    /// Rows hold extension elements, four base coefficients each.
    pub extension: bool,
    /// Per query, the row as the base elements the leaf hash absorbs.
    pub rows: Vec<Vec<u32>>,
    /// The pruned multi-proof's boundary digests.
    pub boundaries: Vec<Digest>,
}

/// The proof's prover messages, transcript data included.
#[derive(Clone, Debug)]
pub struct VerifyData {
    pub transcript: TranscriptData,
    /// Per intermediate round, the *previous* commitment's opening.
    pub round_openings: Vec<Opening>,
    pub final_opening: Opening,
}

/// Why a proof was rejected.
#[derive(Clone, Debug, PartialEq, Eq)]
pub enum VerifyError {
    Pow,
    /// A query's Merkle path did not reach the root. `round` counts the final
    /// opening as one past the last intermediate round.
    Merkle { round: usize, query: usize },
    /// Query count or pruned proof shape did not match the transcript.
    Opening { round: usize },
    /// A final query's fold disagreed with the final polynomial.
    FinalStir { query: usize },
    Closing { claimed: [u32; 4], expected: [u32; 4] },
}

/// What an accepted proof pinned down.
#[derive(Clone, Debug)]
pub struct Verified {
    pub challenges: Challenges,
    /// The claim after every combination and sumcheck round.
    pub claimed: [u32; 4],
    pub weights: [u32; 4],
    pub final_value: [u32; 4],
}

// ---------------------------------------------------------------------------
// Openings.
// ---------------------------------------------------------------------------

/// The intermediate rounds; the final opening comes after them.
pub open spec fn last(cfg: VerifyConfig) -> nat {
    cfg.transcript.rounds@.len()
}

/// The opening checked in round `i`.
pub open spec fn opening(cfg: VerifyConfig, data: VerifyData, i: nat) -> Opening {
    if i < last(cfg) {
        data.round_openings@[i as int]
    } else {
        data.final_opening
    }
}

/// The commitment opened in round `i`.
pub open spec fn root_before(data: VerifyData, i: nat) -> Seq<u32> {
    if i == 0 {
        data.transcript.root@
    } else {
        data.transcript.rounds@[i - 1].root@
    }
}

/// The randomness rows fold at in round `i`.
pub open spec fn folding_before(ch: Draws, i: nat) -> Seq<Quad> {
    if i == 0 {
        ch.initial_folding
    } else {
        ch.rounds[i - 1].folding
    }
}

/// The positions queried in round `i`.
pub open spec fn positions(cfg: VerifyConfig, ch: Draws, i: nat) -> Seq<int> {
    if i < last(cfg) {
        ch.rounds[i as int].queries
    } else {
        ch.final_queries
    }
}

/// The depth of the tree opened in round `i`.
pub open spec fn depth(cfg: VerifyConfig, i: nat) -> nat {
    if i < last(cfg) {
        cfg.transcript.rounds@[i as int].domain_bits as nat
    } else {
        cfg.transcript.final_domain_bits as nat
    }
}

/// The generator of the domain queried in round `i`.
pub open spec fn generator(cfg: VerifyConfig, i: nat) -> int {
    if i < last(cfg) {
        cfg.rounds@[i as int].folded_domain_gen as int
    } else {
        cfg.final_folded_domain_gen as int
    }
}

/// The leaf digests of an opening's rows.
pub open spec fn leaves(o: Opening) -> Seq<Seq<int>> {
    Seq::new(
        o.rows@.len(),
        |q: int| permutation::row_digest(permutation::ints(o.rows@[q]@)),
    )
}

/// The siblings on the path of query `q`.
pub open spec fn siblings(o: Opening, idx: Seq<int>, depth: nat, q: int) -> Seq<Seq<int>> {
    pruned::path(permutation::digests(o.boundaries@), idx, leaves(o), depth, q)
}

/// A row per query, a digest for a root, and the digests the pruned proof owes.
pub open spec fn shaped(o: Opening, root: Seq<u32>, idx: Seq<int>, depth: nat) -> bool {
    &&& o.rows@.len() == idx.len()
    &&& root.len() == 8
    &&& pruned::complete(o.boundaries@.len(), idx, o.rows@.len(), depth)
}

/// Query `q`'s path reaches the root from the digest of the row it opens.
pub open spec fn authentic(o: Opening, root: Seq<u32>, idx: Seq<int>, depth: nat, q: int) -> bool {
    merkle::climbed::<Poseidon2Tree>(
        idx[q],
        leaves(o)[q],
        siblings(o, idx, depth, q),
        depth,
    ) == permutation::ints(root)
}

pub open spec fn round_shaped(cfg: VerifyConfig, data: VerifyData, ch: Draws, i: nat) -> bool {
    shaped(
        opening(cfg, data, i),
        root_before(data, i),
        positions(cfg, ch, i),
        depth(cfg, i),
    )
}

pub open spec fn round_authentic(cfg: VerifyConfig, data: VerifyData, ch: Draws, i: nat, q: int) -> bool {
    authentic(
        opening(cfg, data, i),
        root_before(data, i),
        positions(cfg, ch, i),
        depth(cfg, i),
        q,
    )
}

/// Round `i`'s opening passes.
pub open spec fn opened(cfg: VerifyConfig, data: VerifyData, ch: Draws, i: nat) -> bool {
    &&& round_shaped(cfg, data, ch, i)
    &&& forall|q: int|
        0 <= q < positions(cfg, ch, i).len() ==> #[trigger] round_authentic(cfg, data, ch, i, q)
}

/// A row as extension elements.
pub open spec fn row_elems(extension: bool, row: Seq<u32>) -> Seq<Quad> {
    if extension {
        Seq::new(
            row.len() / 4,
            |j: int|
                Quad {
                    a: row[4 * j] as int,
                    b: row[4 * j + 1] as int,
                    c: row[4 * j + 2] as int,
                    d: row[4 * j + 3] as int,
                },
        )
    } else {
        Seq::new(row.len(), |j: int| ext4::lifted(row[j] as int))
    }
}

/// Every row has an element per vertex of the folding cube.
pub open spec fn measured(o: Opening, folding: nat) -> bool {
    forall|q: int|
        0 <= q < o.rows@.len() ==> {
            &&& row_elems(o.extension, (#[trigger] o.rows@[q])@).len() == pow2(folding)
            &&& o.extension ==> o.rows@[q]@.len() % 4 == 0
        }
}

/// The rows folded at the randomness.
pub open spec fn folds(o: Opening, randomness: Seq<Quad>) -> Seq<Quad> {
    Seq::new(
        o.rows@.len(),
        |q: int| model::multilinear(row_elems(o.extension, o.rows@[q]@), randomness),
    )
}

/// The points of query positions.
pub open spec fn points(gen: int, idx: Seq<int>) -> Seq<int> {
    Seq::new(idx.len(), |q: int| field::power(gen, idx[q] as nat))
}

// ---------------------------------------------------------------------------
// Claims.
// ---------------------------------------------------------------------------

/// The first `k` claims' evaluations, in order.
pub open spec fn flat(openings: Seq<Vec<[u32; 4]>>, k: nat) -> Seq<Quad>
    decreases k,
{
    if k == 0 {
        Seq::empty()
    } else {
        flat(openings, (k - 1) as nat) + ext4::quads(openings[k - 1]@)
    }
}

/// Every value the initial constraint claims.
pub open spec fn initial_evals(data: TranscriptData) -> Seq<Quad> {
    flat(data.openings@, data.openings@.len()) + ext4::quads(data.initial_ood_answers@)
}

/// The messages of a sumcheck.
pub open spec fn polys(rs: Seq<SumcheckRoundData>) -> Seq<(Quad, Quad)> {
    Seq::new(rs.len(), |i: int| (ext4::quad(rs[i].poly@[0]@), ext4::quad(rs[i].poly@[1]@)))
}

/// A claim through a sumcheck.
pub open spec fn reduced(claim: Quad, rs: Seq<SumcheckRoundData>, challenges: Seq<Quad>) -> Quad {
    model::sumcheck_claim(claim, polys(rs), challenges, rs.len())
}

/// The values round `i` combines into the claim.
pub open spec fn round_evals(cfg: VerifyConfig, data: VerifyData, ch: Draws, i: nat) -> Seq<Quad> {
    ext4::quads(data.transcript.rounds@[i as int].ood_answers@) + folds(
        opening(cfg, data, i),
        folding_before(ch, i),
    )
}

/// The claim after the initial sumcheck and `k` rounds.
pub open spec fn claim_at(cfg: VerifyConfig, data: VerifyData, ch: Draws, k: nat) -> Quad
    decreases k,
{
    if k == 0 {
        reduced(
            model::weighted(ext4::zero(), ch.alpha, 0, initial_evals(data.transcript)),
            data.transcript.initial_sumcheck@,
            ch.initial_folding,
        )
    } else {
        let i = (k - 1) as nat;
        reduced(
            model::weighted(
                claim_at(cfg, data, ch, i),
                ch.rounds[i as int].combination,
                1,
                round_evals(cfg, data, ch, i),
            ),
            data.transcript.rounds@[i as int].sumcheck@,
            ch.rounds[i as int].folding,
        )
    }
}

/// The claim after everything.
pub open spec fn final_claim(cfg: VerifyConfig, data: VerifyData, ch: Draws) -> Quad {
    reduced(
        claim_at(cfg, data, ch, last(cfg)),
        data.transcript.final_sumcheck@,
        ch.final_folding,
    )
}

/// Fold `q` of the final opening is the final polynomial at its point.
pub open spec fn agrees(cfg: VerifyConfig, data: VerifyData, ch: Draws, q: int) -> bool {
    model::horner(
        ext4::quads(data.transcript.final_poly@),
        points(generator(cfg, last(cfg)), ch.final_queries)[q],
    ) == folds(data.final_opening, folding_before(ch, last(cfg)))[q]
}

// ---------------------------------------------------------------------------
// Weights.
// ---------------------------------------------------------------------------

/// The folding randomness of the initial sumcheck and the first `k` rounds.
pub open spec fn randomness_at(ch: Draws, k: nat) -> Seq<Quad>
    decreases k,
{
    if k == 0 {
        ch.initial_folding
    } else {
        randomness_at(ch, (k - 1) as nat) + ch.rounds[k - 1].folding
    }
}

/// All folding randomness.
pub open spec fn randomness(cfg: VerifyConfig, ch: Draws) -> Seq<Quad> {
    randomness_at(ch, last(cfg)) + ch.final_folding
}

/// The point of selector `j` of a claim at `u`.
pub open spec fn claim_point(shape: ClaimShape, u: Quad, j: int) -> Seq<Quad> {
    model::expanded(u, shape.row_vars as nat) + ext4::quads(shape.selectors@[j]@)
}

/// A claim's weights.
pub open spec fn claim_weights(shape: ClaimShape, u: Quad, local: Seq<Quad>) -> Seq<Quad> {
    Seq::new(
        shape.selectors@.len(),
        |j: int| model::eq_at(claim_point(shape, u, j), local),
    )
}

/// The first `k` claims' weights, in order.
pub open spec fn all_claim_weights(
    claims: Seq<ClaimShape>,
    us: Seq<Quad>,
    local: Seq<Quad>,
    k: nat,
) -> Seq<Quad>
    decreases k,
{
    if k == 0 {
        Seq::empty()
    } else {
        all_claim_weights(claims, us, local, (k - 1) as nat) + claim_weights(
            claims[k - 1],
            us[k - 1],
            local,
        )
    }
}

/// The weights of out-of-domain points over `n` variables.
pub open spec fn ood_weights(us: Seq<Quad>, n: nat, local: Seq<Quad>) -> Seq<Quad> {
    Seq::new(us.len(), |i: int| model::eq_at(model::expanded(us[i], n), local))
}

/// The weights of query points.
pub open spec fn select_weights(zs: Seq<int>, local: Seq<Quad>) -> Seq<Quad> {
    Seq::new(zs.len(), |i: int| model::selected(ext4::one(), zs[i], local))
}

/// The initial constraint's weights.
pub open spec fn initial_weights(cfg: VerifyConfig, ch: Draws, local: Seq<Quad>) -> Seq<Quad> {
    all_claim_weights(cfg.claims@, ch.opening_points, local, cfg.claims@.len()) + ood_weights(
        ch.initial_ood_points,
        cfg.num_variables as nat,
        local,
    )
}

/// Round `i`'s constraint's weights.
pub open spec fn round_weights(cfg: VerifyConfig, ch: Draws, i: nat, local: Seq<Quad>) -> Seq<Quad> {
    ood_weights(
        ch.rounds[i as int].ood_points,
        cfg.rounds@[i as int].num_variables as nat,
        local,
    ) + select_weights(points(generator(cfg, i), positions(cfg, ch, i)), local)
}

/// The weight of the initial constraint and of the first `k` rounds' ones at
/// `all`.
pub open spec fn weight_at(cfg: VerifyConfig, ch: Draws, all: Seq<Quad>, k: nat) -> Quad
    decreases k,
{
    if k == 0 {
        model::weighted(
            ext4::zero(),
            ch.alpha,
            0,
            initial_weights(cfg, ch, model::suffix(all, cfg.num_variables as nat)),
        )
    } else {
        let i = (k - 1) as nat;
        model::weighted(
            weight_at(cfg, ch, all, i),
            ch.rounds[i as int].combination,
            1,
            round_weights(
                cfg,
                ch,
                i,
                model::suffix(all, cfg.rounds@[i as int].num_variables as nat),
            ),
        )
    }
}

/// The constraints' weight at all the randomness.
pub open spec fn final_weight(cfg: VerifyConfig, ch: Draws) -> Quad {
    weight_at(cfg, ch, randomness(cfg, ch), last(cfg))
}

/// The final polynomial at the final randomness.
pub open spec fn final_value(data: VerifyData, ch: Draws) -> Quad {
    model::multilinear(ext4::quads(data.transcript.final_poly@), ch.final_folding)
}

/// The right-hand side of the closing identity.
pub open spec fn expected(cfg: VerifyConfig, data: VerifyData, ch: Draws) -> Quad {
    ext4::times(final_weight(cfg, ch), final_value(data, ch))
}

// ---------------------------------------------------------------------------
// The verdict.
// ---------------------------------------------------------------------------

/// Every opening before round `k` passes.
pub open spec fn opened_before(cfg: VerifyConfig, data: VerifyData, ch: Draws, k: nat) -> bool {
    forall|i: nat| i < k ==> #[trigger] opened(cfg, data, ch, i)
}

/// Every final fold agrees with the final polynomial.
pub open spec fn all_agree(cfg: VerifyConfig, data: VerifyData, ch: Draws) -> bool {
    forall|q: int| 0 <= q < ch.final_queries.len() ==> #[trigger] agrees(cfg, data, ch, q)
}

/// The proof verifies under the draws.
pub open spec fn accepts(cfg: VerifyConfig, data: VerifyData, ch: Draws) -> bool {
    &&& ch.pow_ok
    &&& opened_before(cfg, data, ch, (last(cfg) + 1) as nat)
    &&& all_agree(cfg, data, ch)
    &&& final_claim(cfg, data, ch) == expected(cfg, data, ch)
}

/// What the verifier answers under the draws.
pub open spec fn verdict(
    cfg: VerifyConfig,
    data: VerifyData,
    ch: Draws,
    r: Result<Verified, VerifyError>,
) -> bool {
    let end = (last(cfg) + 1) as nat;
    match r {
        Err(VerifyError::Pow) => !ch.pow_ok,
        Err(VerifyError::Opening { round }) => {
            &&& ch.pow_ok
            &&& round < end
            &&& opened_before(cfg, data, ch, round as nat)
            &&& !round_shaped(cfg, data, ch, round as nat)
        },
        Err(VerifyError::Merkle { round, query }) => {
            &&& ch.pow_ok
            &&& round < end
            &&& opened_before(cfg, data, ch, round as nat)
            &&& round_shaped(cfg, data, ch, round as nat)
            &&& query < positions(cfg, ch, round as nat).len()
            &&& forall|q: int|
                0 <= q < query ==> #[trigger] round_authentic(cfg, data, ch, round as nat, q)
            &&& !round_authentic(cfg, data, ch, round as nat, query as int)
        },
        Err(VerifyError::FinalStir { query }) => {
            &&& ch.pow_ok
            &&& opened_before(cfg, data, ch, end)
            &&& query < ch.final_queries.len()
            &&& forall|q: int| 0 <= q < query ==> #[trigger] agrees(cfg, data, ch, q)
            &&& !agrees(cfg, data, ch, query as int)
        },
        Err(VerifyError::Closing { claimed, expected: right }) => {
            &&& ch.pow_ok
            &&& opened_before(cfg, data, ch, end)
            &&& all_agree(cfg, data, ch)
            &&& ext4::quad(claimed@) == final_claim(cfg, data, ch)
            &&& ext4::quad(right@) == expected(cfg, data, ch)
            &&& final_claim(cfg, data, ch) != expected(cfg, data, ch)
        },
        Ok(v) => {
            &&& accepts(cfg, data, ch)
            &&& v.challenges.are(ch)
            &&& ext4::quad(v.claimed@) == final_claim(cfg, data, ch)
            &&& ext4::quad(v.weights@) == final_weight(cfg, ch)
            &&& ext4::quad(v.final_value@) == final_value(data, ch)
        },
    }
}

/// The claims' shapes fit the openings and the committed polynomial.
pub open spec fn claims_fit(cfg: VerifyConfig, data: VerifyData) -> bool {
    &&& cfg.claims@.len() == data.transcript.openings@.len()
    &&& forall|c: int|
        0 <= c < cfg.claims@.len() ==> {
            &&& (#[trigger] cfg.claims@[c]).selectors@.len() == data.transcript.openings@[c]@.len()
            &&& forall|j: int|
                0 <= j < cfg.claims@[c].selectors@.len() ==> cfg.claims@[c].row_vars + (
                #[trigger] cfg.claims@[c].selectors@[j])@.len() == cfg.num_variables
        }
}

/// The final polynomial and every constraint's arity fit the randomness.
pub open spec fn closes_fit(cfg: VerifyConfig, data: VerifyData, ch: Draws) -> bool {
    &&& data.transcript.final_poly@.len() == pow2(ch.final_folding.len())
    &&& cfg.num_variables <= randomness(cfg, ch).len()
    &&& forall|i: int|
        0 <= i < cfg.rounds@.len() ==> (#[trigger] cfg.rounds@[i]).num_variables <= randomness(
            cfg,
            ch,
        ).len()
}

/// The configuration and the proof fit each other as far as the verifier gets
/// under the draws.
pub open spec fn verifiable(cfg: VerifyConfig, data: VerifyData, ch: Draws) -> bool {
    ch.pow_ok ==> {
        &&& claims_fit(cfg, data)
        &&& cfg.rounds@.len() == last(cfg)
        &&& data.round_openings@.len() == last(cfg)
        &&& forall|i: nat|
            i <= last(cfg) && #[trigger] opened_before(cfg, data, ch, i + 1) ==> measured(
                opening(cfg, data, i),
                folding_before(ch, i).len(),
            )
        &&& opened_before(cfg, data, ch, (last(cfg) + 1) as nat) && all_agree(cfg, data, ch)
            ==> closes_fit(cfg, data, ch)
    }
}

// ---------------------------------------------------------------------------
// The verifier, run.
// ---------------------------------------------------------------------------

/// The directions of a path from leaf `index`, level 0 first: set where the node
/// is a right child.
pub(crate) fn directions(index: usize, depth: usize) -> (bits: Vec<bool>)
    ensures
        bits@.len() == depth,
        forall|l: int|
            0 <= l < depth ==> #[trigger] bits@[l] == (merkle::ancestor(index as int, l as nat) % 2
                == 1),
{
    let mut bits: Vec<bool> = Vec::new();
    let mut i = index;
    while bits.len() < depth
        invariant
            bits@.len() <= depth,
            i == merkle::ancestor(index as int, bits@.len()),
            forall|l: int|
                0 <= l < bits@.len() ==> #[trigger] bits@[l] == (merkle::ancestor(
                    index as int,
                    l as nat,
                ) % 2 == 1),
        decreases depth - bits@.len(),
    {
        bits.push(i % 2 == 1);
        i = i / 2;
    }
    bits
}

/// Climbing by directions is climbing by the index.
pub(crate) proof fn lemma_rooted(
    index: int,
    leaf: Seq<int>,
    sibs: Seq<Seq<int>>,
    bits: Seq<bool>,
    level: nat,
)
    requires
        forall|l: int|
            0 <= l < level ==> #[trigger] bits[l] == (merkle::ancestor(index, l as nat) % 2 == 1),
    ensures
        permutation::rooted(leaf, sibs, bits, level) == merkle::climbed::<Poseidon2Tree>(
            index,
            leaf,
            sibs,
            level,
        ),
    decreases level,
{
    if level > 0 {
        lemma_rooted(index, leaf, sibs, bits, (level - 1) as nat);
        assert(bits[level - 1] == (merkle::ancestor(index, (level - 1) as nat) % 2 == 1));
    }
}

/// Query positions as indices.
pub(crate) fn wide(indices: &[u32]) -> (r: Vec<usize>)
    ensures
        r@.len() == indices@.len(),
        merkle::ints(r@) == reference::ints(indices@),
{
    let mut r: Vec<usize> = Vec::new();
    while r.len() < indices.len()
        invariant
            r@.len() <= indices@.len(),
            forall|i: int| 0 <= i < r@.len() ==> #[trigger] r@[i] == indices@[i],
        decreases indices@.len() - r@.len(),
    {
        let i = indices[r.len()] as usize;
        r.push(i);
    }
    assert(merkle::ints(r@) =~= reference::ints(indices@));
    r
}

/// The leaf digests of an opening's rows.
pub(crate) fn leaf_digests(o: &Opening) -> (r: Vec<Digest>)
    ensures
        r@.len() == o.rows@.len(),
        permutation::digests(r@) == leaves(*o),
{
    let mut r: Vec<Digest> = Vec::new();
    while r.len() < o.rows.len()
        invariant
            r@.len() <= o.rows@.len(),
            forall|q: int|
                0 <= q < r@.len() ==> permutation::ints((#[trigger] r@[q])@) == leaves(*o)[q],
        decreases o.rows@.len() - r@.len(),
    {
        let d = permutation::hash_row(o.rows[r.len()].as_slice());
        r.push(d);
    }
    assert(permutation::digests(r@) =~= leaves(*o));
    r
}

fn same_digest(a: &Digest, root: &[u32]) -> (r: bool)
    requires
        root@.len() == 8,
    ensures
        r == (permutation::ints(a@) == permutation::ints(root@)),
{
    let mut i: usize = 0;
    while i < 8
        invariant
            i <= 8,
            root@.len() == 8,
            forall|j: int| 0 <= j < i ==> #[trigger] a@[j] == root@[j],
        decreases 8 - i,
    {
        if a[i] != root[i] {
            assert(permutation::ints(a@)[i as int] != permutation::ints(root@)[i as int]);
            return false;
        }
        i = i + 1;
    }
    assert(permutation::ints(a@) =~= permutation::ints(root@));
    true
}

/// Every query's Merkle path of an opening must reach `root` from its own row.
fn check_opening(o: &Opening, root: &[u32], indices: &[u32], depth: usize, round: usize) -> (r: Result<
    (),
    VerifyError,
>)
    ensures
        ({
            let idx = reference::ints(indices@);
            match r {
                Ok(_) => {
                    &&& shaped(*o, root@, idx, depth as nat)
                    &&& forall|q: int|
                        0 <= q < idx.len() ==> #[trigger] authentic(
                            *o,
                            root@,
                            idx,
                            depth as nat,
                            q,
                        )
                },
                Err(VerifyError::Opening { round: at }) => at == round && !shaped(
                    *o,
                    root@,
                    idx,
                    depth as nat,
                ),
                Err(VerifyError::Merkle { round: at, query }) => {
                    &&& at == round
                    &&& shaped(*o, root@, idx, depth as nat)
                    &&& query < idx.len()
                    &&& forall|q: int|
                        0 <= q < query ==> #[trigger] authentic(*o, root@, idx, depth as nat, q)
                    &&& !authentic(*o, root@, idx, depth as nat, query as int)
                },
                _ => false,
            }
        }),
{
    let ghost idx = reference::ints(indices@);
    if o.rows.len() != indices.len() || root.len() != 8 {
        return Err(VerifyError::Opening { round });
    }
    let ls = leaf_digests(o);
    let wide_indices = wide(indices);
    let paths = match pruned::expand(
        o.boundaries.as_slice(),
        wide_indices.as_slice(),
        ls.as_slice(),
        depth,
    ) {
        Ok(paths) => paths,
        Err(_) => {
            return Err(VerifyError::Opening { round });
        },
    };
    let mut q: usize = 0;
    while q < paths.len()
        invariant
            q <= paths@.len(),
            paths@.len() == idx.len(),
            idx == reference::ints(indices@),
            merkle::ints(wide_indices@) == idx,
            wide_indices@.len() == idx.len(),
            root@.len() == 8,
            shaped(*o, root@, idx, depth as nat),
            permutation::digests(ls@) == leaves(*o),
            ls@.len() == idx.len(),
            forall|k: int|
                0 <= k < paths@.len() ==> {
                    let p = #[trigger] paths@[k];
                    &&& p.index == wide_indices@[k]
                    &&& permutation::digests(p.siblings@) == siblings(*o, idx, depth as nat, k)
                    &&& p.siblings@.len() == depth
                },
            forall|k: int|
                0 <= k < q ==> #[trigger] authentic(*o, root@, idx, depth as nat, k),
        decreases paths@.len() - q,
    {
        let path = &paths[q];
        let bits = directions(path.index, depth);
        let top = permutation::merkle_root(ls[q], path.siblings.as_slice(), bits.as_slice());
        proof {
            assert(path.index == wide_indices@[q as int]);
            assert(merkle::ints(wide_indices@)[q as int] == wide_indices@[q as int] as int);
            lemma_rooted(
                idx[q as int],
                permutation::ints(ls@[q as int]@),
                permutation::digests(path.siblings@),
                bits@,
                depth as nat,
            );
        }
        if !same_digest(&top, root) {
            return Err(VerifyError::Merkle { round, query: q });
        }
        q = q + 1;
    }
    Ok(())
}

/// A row as extension elements, for folding.
fn row_as_ef(extension: bool, row: &Vec<u32>) -> (r: Vec<[u32; 4]>)
    requires
        extension ==> row@.len() % 4 == 0,
    ensures
        ext4::quads(r@) == row_elems(extension, row@),
{
    let mut r: Vec<[u32; 4]> = Vec::new();
    if extension {
        let n = row.len() / 4;
        while r.len() < n
            invariant
                r@.len() <= n,
                4 * n <= row@.len(),
                n == row@.len() / 4,
                extension,
                forall|j: int|
                    0 <= j < r@.len() ==> ext4::quad((#[trigger] r@[j])@) == row_elems(
                        extension,
                        row@,
                    )[j],
            decreases n - r@.len(),
        {
            let j = r.len();
            proof {
                let len = row.len();
                assert(4 * j + 3 < len);
            }
            r.push([row[4 * j], row[4 * j + 1], row[4 * j + 2], row[4 * j + 3]]);
        }
    } else {
        while r.len() < row.len()
            invariant
                r@.len() <= row@.len(),
                !extension,
                forall|j: int|
                    0 <= j < r@.len() ==> ext4::quad((#[trigger] r@[j])@) == row_elems(
                        extension,
                        row@,
                    )[j],
            decreases row@.len() - r@.len(),
        {
            let x = arith::lift(row[r.len()]);
            r.push(x);
        }
    }
    assert(ext4::quads(r@) =~= row_elems(extension, row@));
    r
}

/// Each opened row folded at the folding randomness.
fn fold_rows(o: &Opening, randomness: &[[u32; 4]]) -> (r: Vec<[u32; 4]>)
    requires
        measured(*o, randomness@.len()),
    ensures
        r@.len() == o.rows@.len(),
        ext4::quads(r@) == folds(*o, ext4::quads(randomness@)),
{
    let mut r: Vec<[u32; 4]> = Vec::new();
    while r.len() < o.rows.len()
        invariant
            r@.len() <= o.rows@.len(),
            measured(*o, randomness@.len()),
            forall|q: int|
                0 <= q < r@.len() ==> ext4::quad((#[trigger] r@[q])@) == folds(
                    *o,
                    ext4::quads(randomness@),
                )[q],
        decreases o.rows@.len() - r@.len(),
    {
        let q = r.len();
        assert(row_elems(o.extension, o.rows@[q as int]@).len() == pow2(randomness@.len()));
        let row = row_as_ef(o.extension, &o.rows[q]);
        assert(ext4::quads(row@).len() == row@.len());
        let f = arith::eval_multilinear(row.as_slice(), randomness);
        r.push(f);
    }
    assert(ext4::quads(r@) =~= folds(*o, ext4::quads(randomness@)));
    r
}

/// The points of query positions.
fn query_points(gen: u32, queries: &[u32]) -> (r: Vec<u32>)
    ensures
        r@.len() == queries@.len(),
        permutation::ints(r@) == points(gen as int, reference::ints(queries@)),
{
    let mut r: Vec<u32> = Vec::new();
    while r.len() < queries.len()
        invariant
            r@.len() <= queries@.len(),
            forall|q: int|
                0 <= q < r@.len() ==> (#[trigger] r@[q]) as int == points(
                    gen as int,
                    reference::ints(queries@),
                )[q],
        decreases queries@.len() - r@.len(),
    {
        let z = arith::base_pow(gen, queries[r.len()] as u64);
        r.push(z);
    }
    assert(permutation::ints(r@) =~= points(gen as int, reference::ints(queries@)));
    r
}

/// A claim through the rounds of a sumcheck.
fn run_sumcheck(claim: [u32; 4], data: &[SumcheckRoundData], rs: &[[u32; 4]]) -> (r: [u32; 4])
    requires
        data@.len() == rs@.len(),
    ensures
        ext4::quad(r@) == reduced(ext4::quad(claim@), data@, ext4::quads(rs@)),
{
    let mut acc = claim;
    let mut k: usize = 0;
    while k < data.len()
        invariant
            k <= data@.len(),
            data@.len() == rs@.len(),
            ext4::quad(acc@) == model::sumcheck_claim(
                ext4::quad(claim@),
                polys(data@),
                ext4::quads(rs@),
                k as nat,
            ),
        decreases data@.len() - k,
    {
        acc = arith::sumcheck_round(acc, data[k].poly[0], data[k].poly[1], rs[k]);
        k = k + 1;
    }
    acc
}

/// `more` behind `list`.
fn extend_list(list: &mut Vec<[u32; 4]>, more: &[[u32; 4]])
    ensures
        final(list)@ == old(list)@ + more@,
        ext4::quads(final(list)@) == ext4::quads(old(list)@) + ext4::quads(more@),
{
    let ghost start = list@;
    let mut k: usize = 0;
    assert(list@ =~= start + more@.take(0));
    while k < more.len()
        invariant
            k <= more@.len(),
            list@ == start + more@.take(k as int),
        decreases more@.len() - k,
    {
        list.push(more[k]);
        assert(list@ =~= start + more@.take(k + 1));
        k = k + 1;
    }
    assert(more@.take(k as int) =~= more@);
    assert(ext4::quads(list@) =~= ext4::quads(start) + ext4::quads(more@));
}

/// The initial claim: the openings' evaluations, then the out-of-domain answers,
/// in the powers of `alpha`.
fn initial_claim(data: &TranscriptData, alpha: [u32; 4]) -> (r: [u32; 4])
    ensures
        ext4::quad(r@) == model::weighted(
            ext4::zero(),
            ext4::quad(alpha@),
            0,
            initial_evals(*data),
        ),
{
    let mut evals: Vec<[u32; 4]> = Vec::new();
    let mut c: usize = 0;
    assert(ext4::quads(evals@) =~= Seq::<Quad>::empty());
    while c < data.openings.len()
        invariant
            c <= data.openings@.len(),
            ext4::quads(evals@) == flat(data.openings@, c as nat),
        decreases data.openings@.len() - c,
    {
        extend_list(&mut evals, data.openings[c].as_slice());
        c = c + 1;
    }
    extend_list(&mut evals, data.initial_ood_answers.as_slice());
    arith::combine_into(arith::EF_ZERO, alpha, 0, evals.as_slice())
}

/// The weights of out-of-domain points.
fn ood_weight_list(us: &[[u32; 4]], n: usize, local: &[[u32; 4]]) -> (r: Vec<[u32; 4]>)
    requires
        n == local@.len(),
    ensures
        ext4::quads(r@) == ood_weights(ext4::quads(us@), n as nat, ext4::quads(local@)),
        r@.len() == us@.len(),
{
    let mut r: Vec<[u32; 4]> = Vec::new();
    while r.len() < us.len()
        invariant
            r@.len() <= us@.len(),
            n == local@.len(),
            forall|i: int|
                0 <= i < r@.len() ==> ext4::quad((#[trigger] r@[i])@) == ood_weights(
                    ext4::quads(us@),
                    n as nat,
                    ext4::quads(local@),
                )[i],
        decreases us@.len() - r@.len(),
    {
        let p = arith::expand_univariate(us[r.len()], n);
        let w = arith::eq_eval(p.as_slice(), local);
        r.push(w);
    }
    assert(ext4::quads(r@) =~= ood_weights(ext4::quads(us@), n as nat, ext4::quads(local@)));
    r
}

/// The weights of query points.
fn select_weight_list(zs: &[u32], local: &[[u32; 4]]) -> (r: Vec<[u32; 4]>)
    ensures
        ext4::quads(r@) == select_weights(permutation::ints(zs@), ext4::quads(local@)),
        r@.len() == zs@.len(),
{
    let mut r: Vec<[u32; 4]> = Vec::new();
    while r.len() < zs.len()
        invariant
            r@.len() <= zs@.len(),
            forall|i: int|
                0 <= i < r@.len() ==> ext4::quad((#[trigger] r@[i])@) == select_weights(
                    permutation::ints(zs@),
                    ext4::quads(local@),
                )[i],
        decreases zs@.len() - r@.len(),
    {
        let w = arith::select_eval(zs[r.len()], local);
        r.push(w);
    }
    assert(ext4::quads(r@) =~= select_weights(permutation::ints(zs@), ext4::quads(local@)));
    r
}

/// A claim's weights.
fn claim_weight_list(shape: &ClaimShape, u: [u32; 4], local: &[[u32; 4]]) -> (r: Vec<[u32; 4]>)
    requires
        forall|j: int|
            0 <= j < shape.selectors@.len() ==> shape.row_vars + (
            #[trigger] shape.selectors@[j])@.len() == local@.len(),
    ensures
        ext4::quads(r@) == claim_weights(*shape, ext4::quad(u@), ext4::quads(local@)),
        r@.len() == shape.selectors@.len(),
{
    let mut r: Vec<[u32; 4]> = Vec::new();
    while r.len() < shape.selectors.len()
        invariant
            r@.len() <= shape.selectors@.len(),
            forall|j: int|
                0 <= j < shape.selectors@.len() ==> shape.row_vars + (
                #[trigger] shape.selectors@[j])@.len() == local@.len(),
            forall|j: int|
                0 <= j < r@.len() ==> ext4::quad((#[trigger] r@[j])@) == claim_weights(
                    *shape,
                    ext4::quad(u@),
                    ext4::quads(local@),
                )[j],
        decreases shape.selectors@.len() - r@.len(),
    {
        let j = r.len();
        assert(shape.row_vars + shape.selectors@[j as int]@.len() == local@.len());
        let mut p = arith::expand_univariate(u, shape.row_vars);
        let ghost row = p@;
        let sel = &shape.selectors[j];
        let mut k: usize = 0;
        assert(p@ =~= row + sel@.take(0));
        while k < sel.len()
            invariant
                k <= sel@.len(),
                p@ == row + sel@.take(k as int),
            decreases sel@.len() - k,
        {
            p.push(sel[k]);
            assert(p@ =~= row + sel@.take(k + 1));
            k = k + 1;
        }
        proof {
            assert(sel@.take(k as int) =~= sel@);
            assert(ext4::quads(p@) =~= claim_point(*shape, ext4::quad(u@), j as int)) by {
                assert(ext4::quads(row) == model::expanded(
                    ext4::quad(u@),
                    shape.row_vars as nat,
                ));
                assert forall|i: int| 0 <= i < p@.len() implies ext4::quads(p@)[i]
                    == claim_point(*shape, ext4::quad(u@), j as int)[i] by {
                    if i < row.len() {
                        assert(ext4::quads(row)[i] == ext4::quad(row[i]@));
                    }
                }
            }
        }
        let w = arith::eq_eval(p.as_slice(), local);
        r.push(w);
    }
    assert(ext4::quads(r@) =~= claim_weights(*shape, ext4::quad(u@), ext4::quads(local@)));
    r
}

/// The last `n` coordinates.
fn local_of(all: &[[u32; 4]], n: usize) -> (r: &[[u32; 4]])
    requires
        n <= all@.len(),
    ensures
        r@.len() == n,
        ext4::quads(r@) == model::suffix(ext4::quads(all@), n as nat),
{
    let (_, r) = all.split_at(all.len() - n);
    assert(ext4::quads(r@) =~= model::suffix(ext4::quads(all@), n as nat));
    r
}

/// The initial constraint's weight.
fn initial_weight(cfg: &VerifyConfig, ch: &Challenges, all: &[[u32; 4]], Ghost(d): Ghost<Draws>) -> (r:
    [u32; 4])
    requires
        ch.are(d),
        cfg.num_variables <= all@.len(),
        ch.opening_points@.len() == cfg.claims@.len(),
        forall|c: int, j: int|
            0 <= c < cfg.claims@.len() && 0 <= j < cfg.claims@[c].selectors@.len()
                ==> cfg.claims@[c].row_vars + (#[trigger] cfg.claims@[c].selectors@[j])@.len()
                == cfg.num_variables,
    ensures
        ext4::quad(r@) == weight_at(*cfg, d, ext4::quads(all@), 0),
{
    let local = local_of(all, cfg.num_variables);
    let ghost l = ext4::quads(local@);
    let mut ws: Vec<[u32; 4]> = Vec::new();
    let mut c: usize = 0;
    assert(ext4::quads(ws@) =~= Seq::<Quad>::empty());
    while c < cfg.claims.len()
        invariant
            c <= cfg.claims@.len(),
            ch.are(d),
            l == ext4::quads(local@),
            local@.len() == cfg.num_variables,
            ch.opening_points@.len() == cfg.claims@.len(),
            forall|k: int, j: int|
                0 <= k < cfg.claims@.len() && 0 <= j < cfg.claims@[k].selectors@.len()
                    ==> cfg.claims@[k].row_vars + (#[trigger] cfg.claims@[k].selectors@[j])@.len()
                    == cfg.num_variables,
            ext4::quads(ws@) == all_claim_weights(
                cfg.claims@,
                d.opening_points,
                l,
                c as nat,
            ),
        decreases cfg.claims@.len() - c,
    {
        assert(ext4::quads(ch.opening_points@)[c as int] == ext4::quad(
            ch.opening_points@[c as int]@,
        ));
        let here = claim_weight_list(&cfg.claims[c], ch.opening_points[c], local);
        extend_list(&mut ws, here.as_slice());
        c = c + 1;
    }
    let oods = ood_weight_list(ch.initial_ood_points.as_slice(), cfg.num_variables, local);
    extend_list(&mut ws, oods.as_slice());
    arith::combine_into(arith::EF_ZERO, ch.alpha, 0, ws.as_slice())
}

/// The constraints' weight at all the randomness.
fn weights(cfg: &VerifyConfig, ch: &Challenges, all: &[[u32; 4]], Ghost(d): Ghost<Draws>) -> (r:
    [u32; 4])
    requires
        ch.are(d),
        cfg.num_variables <= all@.len(),
        ch.opening_points@.len() == cfg.claims@.len(),
        forall|c: int, j: int|
            0 <= c < cfg.claims@.len() && 0 <= j < cfg.claims@[c].selectors@.len()
                ==> cfg.claims@[c].row_vars + (#[trigger] cfg.claims@[c].selectors@[j])@.len()
                == cfg.num_variables,
        cfg.rounds@.len() == last(*cfg),
        ch.rounds@.len() == last(*cfg),
        forall|i: int|
            0 <= i < cfg.rounds@.len() ==> (#[trigger] cfg.rounds@[i]).num_variables <= all@.len(),
    ensures
        ext4::quad(r@) == weight_at(*cfg, d, ext4::quads(all@), last(*cfg)),
{
    let mut total = initial_weight(cfg, ch, all, Ghost(d));
    let mut i: usize = 0;
    while i < cfg.rounds.len()
        invariant
            i <= cfg.rounds@.len(),
            ch.are(d),
            cfg.rounds@.len() == last(*cfg),
            ch.rounds@.len() == last(*cfg),
            forall|k: int|
                0 <= k < cfg.rounds@.len() ==> (#[trigger] cfg.rounds@[k]).num_variables
                    <= all@.len(),
            ext4::quad(total@) == weight_at(*cfg, d, ext4::quads(all@), i as nat),
        decreases cfg.rounds@.len() - i,
    {
        let rm = &cfg.rounds[i];
        assert(cfg.rounds@[i as int].num_variables <= all@.len());
        let rc = &ch.rounds[i];
        assert(ch.rounds@[i as int].are(d.rounds[i as int]));
        let local = local_of(all, rm.num_variables);
        let ghost l = ext4::quads(local@);
        let mut ws = ood_weight_list(rc.ood_points.as_slice(), rm.num_variables, local);
        let zs = query_points(rm.folded_domain_gen, rc.queries.as_slice());
        let sels = select_weight_list(zs.as_slice(), local);
        extend_list(&mut ws, sels.as_slice());
        total = arith::combine_into(total, rc.combination, 1, ws.as_slice());
        i = i + 1;
    }
    total
}

/// The claim with a round's out-of-domain answers and folds combined in.
fn combine_round(
    claim: [u32; 4],
    combination: [u32; 4],
    answers: &[[u32; 4]],
    folded: &[[u32; 4]],
) -> (r: [u32; 4])
    ensures
        ext4::quad(r@) == model::weighted(
            ext4::quad(claim@),
            ext4::quad(combination@),
            1,
            ext4::quads(answers@) + ext4::quads(folded@),
        ),
{
    let mut evals: Vec<[u32; 4]> = Vec::new();
    extend_list(&mut evals, answers);
    extend_list(&mut evals, folded);
    proof {
        assert(ext4::quads(evals@) =~= ext4::quads(answers@) + ext4::quads(folded@));
    }
    arith::combine_into(claim, combination, 1, evals.as_slice())
}

/// The intermediate rounds: openings, folds, combinations and sumchecks. Gives
/// the claim after them and their folding randomness behind the initial one.
#[verifier::rlimit(60)]
fn run_rounds(
    cfg: &VerifyConfig,
    data: &VerifyData,
    ch: &Challenges,
    claim: [u32; 4],
    Ghost(d): Ghost<Draws>,
) -> (r: Result<([u32; 4], Vec<[u32; 4]>), VerifyError>)
    requires
        ch.are(d),
        d.pow_ok,
        reference::fits(cfg.transcript, data.transcript),
        d.rounds.len() == last(*cfg),
        d.initial_folding.len() == data.transcript.initial_sumcheck@.len(),
        forall|i: int|
            0 <= i < d.rounds.len() ==> (#[trigger] d.rounds[i]).folding.len()
                == data.transcript.rounds@[i].sumcheck@.len(),
        verifiable(*cfg, *data, d),
        ext4::quad(claim@) == claim_at(*cfg, *data, d, 0),
    ensures
        r matches Ok((c, all)) ==> {
            &&& opened_before(*cfg, *data, d, last(*cfg))
            &&& ext4::quad(c@) == claim_at(*cfg, *data, d, last(*cfg))
            &&& ext4::quads(all@) == randomness_at(d, last(*cfg))
        },
        r matches Err(e) ==> verdict(*cfg, *data, d, Err(e)),
{
    let mut claimed = claim;
    let mut all: Vec<[u32; 4]> = Vec::new();
    extend_list(&mut all, ch.initial_folding.as_slice());
    let n = cfg.rounds.len();
    let mut i: usize = 0;
    proof {
        assert(ext4::quads(all@) =~= d.initial_folding);
    }
    while i < n
        invariant
            i <= n,
            n == cfg.rounds@.len(),
            n == last(*cfg),
            ch.are(d),
            d.pow_ok,
            reference::fits(cfg.transcript, data.transcript),
            d.rounds.len() == n,
            forall|k: int|
                0 <= k < d.rounds.len() ==> (#[trigger] d.rounds[k]).folding.len()
                    == data.transcript.rounds@[k].sumcheck@.len(),
            verifiable(*cfg, *data, d),
            opened_before(*cfg, *data, d, i as nat),
            ext4::quad(claimed@) == claim_at(*cfg, *data, d, i as nat),
            ext4::quads(all@) == randomness_at(d, i as nat),
        decreases n - i,
    {
        let rc = &ch.rounds[i];
        let rd = &data.transcript.rounds[i];
        proof {
            assert(ch.rounds@[i as int].are(d.rounds[i as int]));
        }
        let o = &data.round_openings[i];
        let root = if i == 0 {
            data.transcript.root.as_slice()
        } else {
            data.transcript.rounds[i - 1].root.as_slice()
        };
        let folding = if i == 0 {
            ch.initial_folding.as_slice()
        } else {
            ch.rounds[i - 1].folding.as_slice()
        };
        proof {
            if i > 0 {
                assert(ch.rounds@[i - 1].are(d.rounds[i - 1]));
            }
            assert(ext4::quads(folding@) == folding_before(d, i as nat));
            assert(ext4::quads(folding@).len() == folding@.len());
            assert(reference::ints(rc.queries@) == positions(*cfg, d, i as nat));
        }
        match check_opening(
            o,
            root,
            rc.queries.as_slice(),
            cfg.transcript.rounds[i].domain_bits,
            i,
        ) {
            Err(e) => {
                proof {
                    if let VerifyError::Merkle { round, query } = e {
                        assert forall|q: int| 0 <= q < query implies #[trigger] round_authentic(
                            *cfg,
                            *data,
                            d,
                            i as nat,
                            q,
                        ) by {
                            assert(authentic(
                                *o,
                                root@,
                                reference::ints(rc.queries@),
                                depth(*cfg, i as nat),
                                q,
                            ));
                        }
                    }
                }
                return Err(e);
            },
            Ok(_) => {},
        }
        proof {
            assert(opened(*cfg, *data, d, i as nat)) by {
                assert forall|q: int|
                    0 <= q < positions(*cfg, d, i as nat).len() implies #[trigger] round_authentic(
                    *cfg,
                    *data,
                    d,
                    i as nat,
                    q,
                ) by {
                    assert(authentic(
                        *o,
                        root@,
                        reference::ints(rc.queries@),
                        depth(*cfg, i as nat),
                        q,
                    ));
                }
            }
            assert(opened_before(*cfg, *data, d, (i + 1) as nat));
            assert(measured(*o, folding@.len()));
        }
        let folded = fold_rows(o, folding);
        let combined = combine_round(
            claimed,
            rc.combination,
            rd.ood_answers.as_slice(),
            folded.as_slice(),
        );
        proof {
            assert(d.rounds[i as int].folding.len() == rd.sumcheck@.len());
            assert(ext4::quads(rc.folding@).len() == rc.folding@.len());
        }
        claimed = run_sumcheck(combined, rd.sumcheck.as_slice(), rc.folding.as_slice());
        extend_list(&mut all, rc.folding.as_slice());
        i = i + 1;
    }
    Ok((claimed, all))
}

/// The final folds against the final polynomial: the first that disagrees.
fn first_disagreement(
    folded: &[[u32; 4]],
    zs: &[u32],
    final_poly: &[[u32; 4]],
) -> (r: Option<usize>)
    requires
        folded@.len() == zs@.len(),
    ensures
        ({
            let agree = |q: int|
                model::horner(ext4::quads(final_poly@), zs@[q] as int) == ext4::quad(folded@[q]@);
            match r {
                None => forall|q: int| 0 <= q < zs@.len() ==> #[trigger] agree(q),
                Some(k) => {
                    &&& k < zs@.len()
                    &&& forall|q: int| 0 <= q < k ==> #[trigger] agree(q)
                    &&& !agree(k as int)
                },
            }
        }),
{
    let ghost agree = |q: int|
        model::horner(ext4::quads(final_poly@), zs@[q] as int) == ext4::quad(folded@[q]@);
    let mut q: usize = 0;
    while q < zs.len()
        invariant
            q <= zs@.len(),
            folded@.len() == zs@.len(),
            agree == (|k: int|
                model::horner(ext4::quads(final_poly@), zs@[k] as int) == ext4::quad(
                    folded@[k]@,
                )),
            forall|k: int| 0 <= k < q ==> #[trigger] agree(k),
        decreases zs@.len() - q,
    {
        let v = arith::horner(final_poly, zs[q]);
        if !ext4::equal(v, folded[q]) {
            assert(!agree(q as int));
            return Some(q);
        }
        assert(agree(q as int));
        q = q + 1;
    }
    None
}

/// The transcript's draws have the lengths the messages call for.
pub(crate) proof fn lemma_draw_lengths(cfg: TranscriptConfig, data: TranscriptData, s: sponge::Duplex)
    requires
        sponge::wf(s),
        reference::fits(cfg, data),
    ensures
        ({
            let d = reference::run(cfg, data, s).1;
            &&& d.initial_ood_points.len() == data.initial_ood_answers@.len()
            &&& d.opening_points.len() == data.openings@.len()
            &&& d.initial_folding.len() == data.initial_sumcheck@.len()
            &&& d.rounds.len() == cfg.rounds@.len()
            &&& d.final_folding.len() == data.final_sumcheck@.len()
            &&& forall|i: int|
                0 <= i < d.rounds.len() ==> {
                    &&& (#[trigger] d.rounds[i]).folding.len() == data.rounds@[i].sumcheck@.len()
                    &&& d.rounds[i].ood_points.len() == data.rounds@[i].ood_answers@.len()
                    &&& forall|q: int|
                        0 <= q < d.rounds[i].queries.len() ==> 0
                            <= #[trigger] d.rounds[i].queries[q] < pow2(
                            cfg.rounds@[i].domain_bits as nat,
                        )
                    &&& d.rounds[i].queries.len() == query_count(
                        cfg.rounds@[i].domain_bits as nat,
                        cfg.rounds@[i].num_queries as nat,
                    )
                }
            &&& d.final_queries.len() == query_count(
                cfg.final_domain_bits as nat,
                cfg.final_queries as nat,
            )
            &&& forall|q: int|
                0 <= q < d.final_queries.len() ==> 0 <= #[trigger] d.final_queries[q] < pow2(
                    cfg.final_domain_bits as nat,
                )
        }),
{
    let start = sponge::observed_all(
        sponge::observed_all(s, data.seed_commitment@),
        data.root@,
    );
    sponge::lemma_observed_all(s, data.seed_commitment@);
    sponge::lemma_observed_all(sponge::observed_all(s, data.seed_commitment@), data.root@);
    reference::lemma_virtual(
        start,
        data.seed_virtual@,
        data.initial_ood_answers@,
        data.initial_ood_answers@.len(),
    );
    let e = reference::virtual_claims(
        start,
        data.seed_virtual@,
        data.initial_ood_answers@,
        data.initial_ood_answers@.len(),
    ).0;
    reference::lemma_claims(e, data.seed_claim@, data.openings@, data.openings@.len());
    let f = reference::opening_claims(
        e,
        data.seed_claim@,
        data.openings@,
        data.openings@.len(),
    ).0;
    sponge::lemma_observed_all(f, data.seed_whir@);
    let g = sponge::observed_all(sponge::observed_all(f, data.seed_whir@), data.seed_batching@);
    sponge::lemma_observed_all(sponge::observed_all(f, data.seed_whir@), data.seed_batching@);
    sponge::lemma_sampled_quad(g);
    let h = sponge::observed_all(sponge::sampled_quad(g).0, data.seed_initial_sumcheck@);
    sponge::lemma_observed_all(sponge::sampled_quad(g).0, data.seed_initial_sumcheck@);
    let bits = cfg.initial_folding_pow_bits as nat;
    reference::lemma_sumchecks(h, data.initial_sumcheck@, bits, data.initial_sumcheck@.len());
    let i = reference::sumchecks(
        h,
        data.initial_sumcheck@,
        bits,
        data.initial_sumcheck@.len(),
    ).0;
    lemma_round_lengths(i, cfg, data, cfg.rounds@.len());
    let j = reference::rounds(i, cfg.rounds@, data.rounds@, cfg.rounds@.len()).0;
    sponge::lemma_observed_quads(j, data.final_poly@);
    let k = sponge::observed_quads(j, data.final_poly@);
    sponge::lemma_worked(k, cfg.final_pow_bits as nat, data.final_pow_witness as int);
    let l = sponge::worked(k, cfg.final_pow_bits as nat, data.final_pow_witness as int).0;
    reference::law_queries_in_range(
        l,
        cfg.final_domain_bits as nat,
        cfg.final_queries as nat,
    );
    let m = reference::queries(l, cfg.final_domain_bits as nat, cfg.final_queries as nat).0;
    sponge::lemma_observed_all(m, data.seed_final_sumcheck@);
    reference::lemma_sumchecks(
        sponge::observed_all(m, data.seed_final_sumcheck@),
        data.final_sumcheck@,
        cfg.final_folding_pow_bits as nat,
        data.final_sumcheck@.len(),
    );
}

/// The queries of one block.
pub open spec fn query_count(bits: nat, n: nat) -> nat {
    if n >= pow2(bits) {
        pow2(bits)
    } else {
        n
    }
}

proof fn lemma_round_lengths(s: sponge::Duplex, cfg: TranscriptConfig, data: TranscriptData, n: nat)
    requires
        sponge::wf(s),
        n <= cfg.rounds@.len(),
        reference::fits(cfg, data),
    ensures
        sponge::wf(reference::rounds(s, cfg.rounds@, data.rounds@, n).0),
        ({
            let rs = reference::rounds(s, cfg.rounds@, data.rounds@, n).1;
            &&& rs.len() == n
            &&& forall|i: int|
                0 <= i < n ==> {
                    &&& (#[trigger] rs[i]).folding.len() == data.rounds@[i].sumcheck@.len()
                    &&& rs[i].ood_points.len() == data.rounds@[i].ood_answers@.len()
                    &&& forall|q: int|
                        0 <= q < rs[i].queries.len() ==> 0 <= #[trigger] rs[i].queries[q] < pow2(
                            cfg.rounds@[i].domain_bits as nat,
                        )
                    &&& rs[i].queries.len() == query_count(
                        cfg.rounds@[i].domain_bits as nat,
                        cfg.rounds@[i].num_queries as nat,
                    )
                }
        }),
    decreases n,
{
    if n > 0 {
        let m = (n - 1) as nat;
        lemma_round_lengths(s, cfg, data, m);
        let e = reference::rounds(s, cfg.rounds@, data.rounds@, m).0;
        let (rc, rd) = (cfg.rounds@[m as int], data.rounds@[m as int]);
        sponge::lemma_observed_all(e, rd.root@);
        let a = sponge::observed_all(e, rd.root@);
        reference::lemma_ood(a, rd.ood_answers@, rd.ood_answers@.len());
        let b = reference::ood_samples(a, rd.ood_answers@, rd.ood_answers@.len()).0;
        sponge::lemma_worked(b, rc.pow_bits as nat, rd.pow_witness as int);
        let c = sponge::worked(b, rc.pow_bits as nat, rd.pow_witness as int).0;
        reference::law_queries_in_range(c, rc.domain_bits as nat, rc.num_queries as nat);
        let g = reference::queries(c, rc.domain_bits as nat, rc.num_queries as nat).0;
        sponge::lemma_sampled_quad(g);
        let h = sponge::sampled_quad(g).0;
        sponge::lemma_observed_all(h, rd.seed_sumcheck@);
        reference::lemma_sumchecks(
            sponge::observed_all(h, rd.seed_sumcheck@),
            rd.sumcheck@,
            rc.folding_pow_bits as nat,
            rd.sumcheck@.len(),
        );
        let rs = reference::rounds(s, cfg.rounds@, data.rounds@, n).1;
        let before = reference::rounds(s, cfg.rounds@, data.rounds@, m).1;
        assert forall|i: int| 0 <= i < n implies ({
            &&& (#[trigger] rs[i]).folding.len() == data.rounds@[i].sumcheck@.len()
            &&& rs[i].ood_points.len() == data.rounds@[i].ood_answers@.len()
            &&& forall|q: int|
                0 <= q < rs[i].queries.len() ==> 0 <= #[trigger] rs[i].queries[q] < pow2(
                    cfg.rounds@[i].domain_bits as nat,
                )
            &&& rs[i].queries.len() == query_count(
                cfg.rounds@[i].domain_bits as nat,
                cfg.rounds@[i].num_queries as nat,
            )
        }) by {
            if i < m {
                assert(rs[i] == before[i]);
            }
        }
    }
}

/// Runs the verifier: the transcript, then the arithmetic.
#[verifier::rlimit(60)]
pub fn verify(cfg: &VerifyConfig, data: &VerifyData) -> (r: Result<Verified, VerifyError>)
    requires
        reference::fits(cfg.transcript, data.transcript),
        !reference::run(cfg.transcript, data.transcript, sponge::fresh()).0.stuck,
        verifiable(
            *cfg,
            *data,
            reference::run(cfg.transcript, data.transcript, sponge::fresh()).1,
        ),
    ensures
        verdict(
            *cfg,
            *data,
            reference::run(cfg.transcript, data.transcript, sponge::fresh()).1,
            r,
        ),
        r is Ok <==> accepts(
            *cfg,
            *data,
            reference::run(cfg.transcript, data.transcript, sponge::fresh()).1,
        ),
{
    let t = &cfg.transcript;
    let mut challenger = Challenger::new();
    proof {
        challenger.lemma_ready();
        reference::law_duplex_run(cfg.transcript, data.transcript, sponge::fresh());
        lemma_draw_lengths(cfg.transcript, data.transcript, sponge::fresh());
    }
    let ghost d = reference::run(cfg.transcript, data.transcript, sponge::fresh()).1;
    let ch = reference::transcript(t, &data.transcript, &mut challenger);
    if !ch.pow_ok {
        return Err(VerifyError::Pow);
    }
    let start = initial_claim(&data.transcript, ch.alpha);
    proof {
        assert(ext4::quads(ch.initial_folding@).len() == ch.initial_folding@.len());
        assert(ext4::quads(ch.final_folding@).len() == ch.final_folding@.len());
        assert(ext4::quads(ch.opening_points@).len() == ch.opening_points@.len());
    }
    let first = run_sumcheck(
        start,
        data.transcript.initial_sumcheck.as_slice(),
        ch.initial_folding.as_slice(),
    );
    let (claim, mut all) = match run_rounds(cfg, data, &ch, first, Ghost(d)) {
        Ok(r) => r,
        Err(e) => {
            proof {
                lemma_rejected(*cfg, *data, d, e);
            }
            return Err(e);
        },
    };
    let n = t.rounds.len();
    let root = if n == 0 {
        data.transcript.root.as_slice()
    } else {
        data.transcript.rounds[n - 1].root.as_slice()
    };
    let folding = if n == 0 {
        ch.initial_folding.as_slice()
    } else {
        ch.rounds[n - 1].folding.as_slice()
    };
    proof {
        if n > 0 {
            assert(ch.rounds@[n - 1].are(d.rounds[n - 1]));
        }
        assert(ext4::quads(folding@) == folding_before(d, n as nat));
        assert(ext4::quads(folding@).len() == folding@.len());
    }
    match check_opening(
        &data.final_opening,
        root,
        ch.final_queries.as_slice(),
        t.final_domain_bits,
        n,
    ) {
        Err(e) => {
            proof {
                if let VerifyError::Merkle { round, query } = e {
                    assert forall|q: int| 0 <= q < query implies #[trigger] round_authentic(
                        *cfg,
                        *data,
                        d,
                        n as nat,
                        q,
                    ) by {
                        assert(authentic(
                            data.final_opening,
                            root@,
                            reference::ints(ch.final_queries@),
                            depth(*cfg, n as nat),
                            q,
                        ));
                    }
                }
                assert(verdict(*cfg, *data, d, Err(e)));
                lemma_rejected(*cfg, *data, d, e);
            }
            return Err(e);
        },
        Ok(_) => {},
    }
    proof {
        assert(opened(*cfg, *data, d, n as nat)) by {
            assert forall|q: int|
                0 <= q < positions(*cfg, d, n as nat).len() implies #[trigger] round_authentic(
                *cfg,
                *data,
                d,
                n as nat,
                q,
            ) by {
                assert(authentic(
                    data.final_opening,
                    root@,
                    reference::ints(ch.final_queries@),
                    depth(*cfg, n as nat),
                    q,
                ));
            }
        }
        assert(opened_before(*cfg, *data, d, (n + 1) as nat));
        assert(measured(data.final_opening, folding@.len()));
    }
    let folded = fold_rows(&data.final_opening, folding);
    let zs = query_points(cfg.final_folded_domain_gen, ch.final_queries.as_slice());
    proof {
        assert(round_shaped(*cfg, *data, d, n as nat));
        assert(reference::ints(ch.final_queries@).len() == ch.final_queries@.len());
    }
    let found = first_disagreement(
        folded.as_slice(),
        zs.as_slice(),
        data.transcript.final_poly.as_slice(),
    );
    proof {
        let agree = |q: int|
            model::horner(ext4::quads(data.transcript.final_poly@), zs@[q] as int) == ext4::quad(
                folded@[q]@,
            );
        assert forall|q: int| 0 <= q < zs@.len() implies #[trigger] agrees(*cfg, *data, d, q)
            == agree(q) by {
            assert(permutation::ints(zs@)[q] == zs@[q] as int);
            assert(ext4::quads(folded@)[q] == ext4::quad(folded@[q]@));
        }
        if let Some(k) = found {
            assert(!agree(k as int));
            assert forall|q: int| 0 <= q < k implies #[trigger] agrees(*cfg, *data, d, q) by {
                assert(agree(q));
            }
        } else {
            assert forall|q: int| 0 <= q < zs@.len() implies #[trigger] agrees(
                *cfg,
                *data,
                d,
                q,
            ) by {
                assert(agree(q));
            }
        }
    }
    if let Some(query) = found {
        proof {
            lemma_rejected(*cfg, *data, d, VerifyError::FinalStir { query });
        }
        return Err(VerifyError::FinalStir { query });
    }
    let claimed = run_sumcheck(
        claim,
        data.transcript.final_sumcheck.as_slice(),
        ch.final_folding.as_slice(),
    );
    extend_list(&mut all, ch.final_folding.as_slice());
    proof {
        assert(closes_fit(*cfg, *data, d));
        assert(ext4::quads(all@) == randomness(*cfg, d));
        assert(ext4::quads(all@).len() == all@.len());
        assert forall|c: int, j: int|
            0 <= c < cfg.claims@.len() && 0 <= j < cfg.claims@[c].selectors@.len() implies cfg.claims@[c].row_vars
            + (#[trigger] cfg.claims@[c].selectors@[j])@.len() == cfg.num_variables by {
            let shape = cfg.claims@[c];
            assert(shape.selectors@.len() == data.transcript.openings@[c]@.len());
        }
    }
    let weight = weights(cfg, &ch, all.as_slice(), Ghost(d));
    let value = arith::eval_multilinear(
        data.transcript.final_poly.as_slice(),
        ch.final_folding.as_slice(),
    );
    let right = ext4::mul(weight, value);
    if !ext4::equal(claimed, right) {
        return Err(VerifyError::Closing { claimed, expected: right });
    }
    Ok(Verified { challenges: ch, claimed, weights: weight, final_value: value })
}

/// A verdict against the proof means it does not verify.
proof fn lemma_rejected(cfg: VerifyConfig, data: VerifyData, d: Draws, e: VerifyError)
    requires
        verdict(cfg, data, d, Err(e)),
    ensures
        !accepts(cfg, data, d),
{
    let end = (last(cfg) + 1) as nat;
    if accepts(cfg, data, d) {
        match e {
            VerifyError::Opening { round } => {
                assert(opened(cfg, data, d, round as nat));
            },
            VerifyError::Merkle { round, query } => {
                assert(opened(cfg, data, d, round as nat));
                assert(round_authentic(cfg, data, d, round as nat, query as int));
            },
            VerifyError::FinalStir { query } => {
                assert(agrees(cfg, data, d, query as int));
            },
            _ => {},
        }
    }
}

} // verus!

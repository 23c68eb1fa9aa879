//! The verifier of one proof as a single script.
//!
//! The script performs the verification of [`super::verify::verify`]: the
//! transcript through the sponge, then the arithmetic on the challenges the sponge
//! produced. It is built from the proof: the schedule of a transcript depends on
//! the data (queries are drawn until enough are accepted) and the openings' shape
//! is the proof's. It does not trust the proof: every challenge is drawn from the
//! script's own sponge, every opened row is hashed and walked to the committed
//! root, every rejected query draw is checked to be one, and the closing identity
//! is computed in full.
use super::builder::{lemma_one, sp, Builder};
use super::layout;
use super::layout::{first_of, placed, round_placed, Layout};
use super::log;
use super::model;
use super::pieces::lemma_appended;
use super::pruned::Error;
use super::reading;
use super::reading::in_range;
use super::reference;
use super::reference::{Challenges, Draws, VerifyConfig, VerifyData};
use super::script;
use super::script::{Census, Machine, Op};
use super::sponge;
use super::sponge::Duplex;
use super::stir;
use super::stir::{expandable, refusal, row_authentic};
use super::symbols;
use super::symbols::{
    at, ats, both, none, prefix, quad_at, spread, stand, Cond, Sym, Val,
};
use super::tape;
use super::verify;
use super::weights;
use crate::merkle;
use crate::poseidon2::ext4;
use crate::poseidon2::ext4::Quad;
use crate::poseidon2::field;
use crate::poseidon2::reference as permutation;
use vstd::arithmetic::power2::{lemma_pow2_pos, pow2};
use vstd::prelude::*;

verus! {

broadcast use {
    symbols::lemma_spread_len,
    symbols::lemma_alt_spread_len,
    script::lemma_census_push,
};

/// A script.
pub type Script = Vec<Op>;

/// The built verifier.
#[derive(Debug)]
pub struct Built {
    pub script: Script,
    /// The proof's data as the script reads it, `data[0]` shallowest.
    pub data: Vec<u32>,
    /// Permutations the transcript costs; the openings add `depth + 1` each.
    pub transcript_permutations: usize,
    pub challenges: Challenges,
}

// ---------------------------------------------------------------------------
// What a script passes.
// ---------------------------------------------------------------------------

/// Round `i`'s opening can be laid out.
pub open spec fn laid_round(cfg: VerifyConfig, data: VerifyData, ch: Draws, i: nat) -> bool {
    expandable(
        verify::opening(cfg, data, i),
        verify::positions(cfg, ch, i),
        verify::depth(cfg, i),
    )
}

/// Every opening before round `k` can be laid out.
pub open spec fn laid_before(cfg: VerifyConfig, data: VerifyData, ch: Draws, k: nat) -> bool {
    forall|i: nat| i < k ==> #[trigger] laid_round(cfg, data, ch, i)
}

/// Why round `i`'s opening cannot be laid out.
pub open spec fn round_refusal(cfg: VerifyConfig, data: VerifyData, ch: Draws, i: nat) -> Error {
    refusal(
        verify::opening(cfg, data, i),
        verify::positions(cfg, ch, i),
        verify::depth(cfg, i),
    )
}

/// Query `q` of round `i` has its own row reach the root.
pub open spec fn reaches(cfg: VerifyConfig, data: VerifyData, ch: Draws, i: nat, q: int) -> bool {
    row_authentic(
        verify::opening(cfg, data, i),
        verify::root_before(data, i),
        verify::positions(cfg, ch, i),
        verify::depth(cfg, i),
        q,
    )
}

/// Every row of round `i` reaches its root.
pub open spec fn round_reaches(cfg: VerifyConfig, data: VerifyData, ch: Draws, i: nat) -> bool {
    forall|q: int|
        0 <= q < verify::positions(cfg, ch, i).len() ==> #[trigger] reaches(cfg, data, ch, i, q)
}

/// Every row before round `k` reaches its root.
pub open spec fn all_reach(cfg: VerifyConfig, data: VerifyData, ch: Draws, k: nat) -> bool {
    forall|i: nat| i < k ==> #[trigger] round_reaches(cfg, data, ch, i)
}

/// What round `i`'s opening adds to the data.
pub open spec fn round_words(cfg: VerifyConfig, data: VerifyData, ch: Draws, i: nat) -> Seq<int> {
    stir::laid_words(
        verify::opening(cfg, data, i),
        verify::positions(cfg, ch, i),
        verify::depth(cfg, i),
        verify::positions(cfg, ch, i).len(),
    )
}

/// What the openings before round `k` add to the data.
pub open spec fn words_before(cfg: VerifyConfig, data: VerifyData, ch: Draws, k: nat) -> Seq<int>
    decreases k,
{
    if k == 0 {
        Seq::empty()
    } else {
        words_before(cfg, data, ch, (k - 1) as nat) + round_words(cfg, data, ch, (k - 1) as nat)
    }
}

/// What the script of a proof requires.
pub open spec fn passes(cfg: VerifyConfig, data: VerifyData, ch: Draws) -> bool {
    &&& all_reach(cfg, data, ch, (verify::last(cfg) + 1) as nat)
    &&& verify::all_agree(cfg, data, ch)
    &&& verify::final_claim(cfg, data, ch) == verify::expected(cfg, data, ch)
}

/// Every element of a list is canonical.
pub open spec fn canonical_list(qs: Seq<Quad>) -> bool {
    forall|i: int| 0 <= i < qs.len() ==> ext4::canonical(#[trigger] qs[i])
}

/// The configuration and the proof fit each other as far as the builder gets: no
/// proof of work, at least one query per round and one claimed value, a digest for
/// every root, canonical claims and coefficients, and rows and arities that fit the
/// randomness once every opening is laid out. Every row is folded, so every row has
/// a value per vertex of the folding cube.
pub open spec fn buildable(cfg: VerifyConfig, data: VerifyData, ch: Draws) -> bool {
    let t = cfg.transcript;
    &&& layout::workless(t)
    &&& verify::claims_fit(cfg, data)
    &&& cfg.rounds@.len() == verify::last(cfg)
    &&& data.round_openings@.len() == verify::last(cfg)
    &&& forall|i: int| 0 <= i < t.rounds@.len() ==> (#[trigger] t.rounds@[i]).num_queries > 0
    &&& t.final_queries > 0
    &&& verify::initial_evals(data.transcript).len() > 0
    &&& canonical_list(verify::initial_evals(data.transcript))
    &&& canonical_list(ext4::quads(data.transcript.final_poly@))
    &&& forall|i: nat|
        i <= verify::last(cfg) ==> (#[trigger] verify::root_before(data, i)).len() >= 8
    &&& forall|i: nat|
        i <= verify::last(cfg) && #[trigger] laid_before(cfg, data, ch, i + 1) ==> verify::measured(
            verify::opening(cfg, data, i),
            verify::folding_before(ch, i).len(),
        )
    &&& laid_before(cfg, data, ch, (verify::last(cfg) + 1) as nat) ==> verify::closes_fit(
        cfg,
        data,
        ch,
    )
}

// ---------------------------------------------------------------------------
// What a script passes on other data.
// ---------------------------------------------------------------------------

/// The challenges on other data: the transcript is the same, what it observes is
/// the data's.
pub open spec fn challenges(cfg: VerifyConfig, l: Layout, end: Duplex, u: Seq<int>) -> Draws {
    reading::draws(cfg.transcript, l, end.drawn, reading::samples(end, u))
}

/// The draws of round `i`'s queries.
pub open spec fn query_entries(cfg: VerifyConfig, l: Layout, i: nat) -> Seq<u128> {
    if i < verify::last(cfg) {
        l.rounds@[i as int].k_draws@
    } else {
        l.k_final_draws@
    }
}

/// How many queries round `i` asks for.
pub open spec fn query_number(cfg: VerifyConfig, i: nat) -> nat {
    if i < verify::last(cfg) {
        cfg.transcript.rounds@[i as int].num_queries as nat
    } else {
        cfg.transcript.final_queries as nat
    }
}

/// Where the root that round `i` opens lies.
pub open spec fn root_place(l: Layout, i: nat) -> int {
    if i == 0 {
        l.root as int
    } else {
        l.rounds@[i - 1].root as int
    }
}

/// Where the randomness that round `i` folds at lies.
pub open spec fn fold_places(l: Layout, i: nat) -> Seq<u128> {
    if i == 0 {
        l.k_initial_fold@
    } else {
        l.rounds@[i - 1].k_fold@
    }
}

/// Where query `q` of round `i` has its path, the row after it.
pub open spec fn row_place(
    cfg: VerifyConfig,
    data: VerifyData,
    ch: Draws,
    end: Duplex,
    i: nat,
    q: int,
) -> int {
    (end.seen.len() + words_before(cfg, data, ch, i).len() + stir::laid_words(
        verify::opening(cfg, data, i),
        verify::positions(cfg, ch, i),
        verify::depth(cfg, i),
        q as nat,
    ).len()) as int
}

/// How long the rows of round `i` are.
pub open spec fn row_len(cfg: VerifyConfig, data: VerifyData, i: nat) -> nat {
    verify::opening(cfg, data, i).rows@[0]@.len()
}

/// How many elements the rows of round `i` hold.
pub open spec fn row_count(cfg: VerifyConfig, data: VerifyData, i: nat) -> nat {
    if verify::opening(cfg, data, i).extension {
        row_len(cfg, data, i) / 4
    } else {
        row_len(cfg, data, i)
    }
}

/// The transcript of the data keeps and rejects round `i`'s draws as the proof's
/// does.
pub open spec fn draws_alike(cfg: VerifyConfig, l: Layout, end: Duplex, u: Seq<int>, i: nat) -> bool {
    reading::same_block(
        end.drawn,
        reading::samples(end, u),
        verify::depth(cfg, i),
        query_number(cfg, i),
        query_entries(cfg, l, i),
    )
}

/// Row `q` of round `i` in the data reaches the data's root from the index drawn.
pub open spec fn reaches_on(
    cfg: VerifyConfig,
    data: VerifyData,
    ch: Draws,
    end: Duplex,
    l: Layout,
    u: Seq<int>,
    i: nat,
    q: int,
) -> bool {
    reading::reaches(
        u,
        root_place(l, i),
        row_place(cfg, data, ch, end, i, q),
        verify::depth(cfg, i),
        row_len(cfg, data, i),
        verify::positions(cfg, challenges(cfg, l, end, u), i)[q],
    )
}

/// Round `i` draws as the proof does, and every row of it reaches the root.
pub open spec fn round_on(
    cfg: VerifyConfig,
    data: VerifyData,
    ch: Draws,
    end: Duplex,
    l: Layout,
    u: Seq<int>,
    i: nat,
) -> bool {
    &&& draws_alike(cfg, l, end, u, i)
    &&& forall|q: int|
        0 <= q < verify::positions(cfg, ch, i).len() ==> #[trigger] reaches_on(
            cfg,
            data,
            ch,
            end,
            l,
            u,
            i,
            q,
        )
}

/// So do the rounds before `k`.
pub open spec fn rounds_on(
    cfg: VerifyConfig,
    data: VerifyData,
    ch: Draws,
    end: Duplex,
    l: Layout,
    u: Seq<int>,
    k: nat,
) -> bool {
    forall|i: nat| i < k ==> #[trigger] round_on(cfg, data, ch, end, l, u, i)
}

/// The rows of round `i` in the data, folded.
pub open spec fn folds_on(
    cfg: VerifyConfig,
    data: VerifyData,
    ch: Draws,
    end: Duplex,
    l: Layout,
    u: Seq<int>,
    i: nat,
) -> Seq<Quad> {
    Seq::new(
        verify::positions(cfg, ch, i).len(),
        |q: int|
            model::multilinear(
                reading::row(
                    u,
                    verify::opening(cfg, data, i).extension,
                    row_place(cfg, data, ch, end, i, q) + 8 * verify::depth(cfg, i),
                    row_count(cfg, data, i),
                ),
                verify::folding_before(challenges(cfg, l, end, u), i),
            ),
    )
}

/// The places of the first `k` claims' values.
pub open spec fn claimed(evals: Seq<Vec<u128>>, k: nat) -> Seq<u128>
    decreases k,
{
    if k == 0 {
        Seq::empty()
    } else {
        claimed(evals, (k - 1) as nat) + evals[k - 1]@
    }
}

/// The data's claimed values.
pub open spec fn evals_on(l: Layout, u: Seq<int>) -> Seq<Quad> {
    reading::quads(u, claimed(l.evals@, l.evals@.len()) + l.ood_answers@)
}

/// The claim on the data after the initial sumcheck and `k` rounds.
pub open spec fn claim_on(
    cfg: VerifyConfig,
    data: VerifyData,
    ch: Draws,
    end: Duplex,
    l: Layout,
    u: Seq<int>,
    k: nat,
) -> Quad
    decreases k,
{
    let here = challenges(cfg, l, end, u);
    if k == 0 {
        model::sumcheck_claim(
            model::nested(here.alpha, evals_on(l, u)),
            reading::pairs(u, l.initial_sumcheck@),
            here.initial_folding,
            l.initial_sumcheck@.len(),
        )
    } else {
        let i = (k - 1) as nat;
        model::sumcheck_claim(
            model::weighted(
                claim_on(cfg, data, ch, end, l, u, i),
                here.rounds[i as int].combination,
                1,
                reading::quads(u, l.rounds@[i as int].ood_answers@) + folds_on(
                    cfg,
                    data,
                    ch,
                    end,
                    l,
                    u,
                    i,
                ),
            ),
            reading::pairs(u, l.rounds@[i as int].sumcheck@),
            here.rounds[i as int].folding,
            l.rounds@[i as int].sumcheck@.len(),
        )
    }
}

/// The data's final polynomial.
pub open spec fn final_poly_on(data: VerifyData, l: Layout, u: Seq<int>) -> Seq<Quad> {
    reading::row(u, true, l.final_poly as int, data.transcript.final_poly@.len())
}

/// Fold `q` of the data's final opening is the data's final polynomial at its
/// point.
pub open spec fn agrees_on(
    cfg: VerifyConfig,
    data: VerifyData,
    ch: Draws,
    end: Duplex,
    l: Layout,
    u: Seq<int>,
    q: int,
) -> bool {
    let n = verify::last(cfg);
    model::nested(
        ext4::lifted(
            verify::points(
                verify::generator(cfg, n),
                challenges(cfg, l, end, u).final_queries,
            )[q],
        ),
        final_poly_on(data, l, u),
    ) == folds_on(cfg, data, ch, end, l, u, n)[q]
}

/// Every fold agrees.
pub open spec fn all_agree_on(
    cfg: VerifyConfig,
    data: VerifyData,
    ch: Draws,
    end: Duplex,
    l: Layout,
    u: Seq<int>,
) -> bool {
    forall|q: int|
        0 <= q < ch.final_queries.len() ==> #[trigger] agrees_on(cfg, data, ch, end, l, u, q)
}

/// The claim on the data is its constraints' weight times its final polynomial.
pub open spec fn closes_on(
    cfg: VerifyConfig,
    data: VerifyData,
    ch: Draws,
    end: Duplex,
    l: Layout,
    u: Seq<int>,
) -> bool {
    let here = challenges(cfg, l, end, u);
    ext4::times(
        verify::final_weight(cfg, here),
        model::multilinear(final_poly_on(data, l, u), here.final_folding),
    ) == model::sumcheck_claim(
        claim_on(cfg, data, ch, end, l, u, verify::last(cfg)),
        reading::pairs(u, l.final_sumcheck@),
        here.final_folding,
        l.final_sumcheck@.len(),
    )
}

/// What the script requires of the data it runs on: the transcript of the data
/// keeps and rejects the draws the proof's does, every row of it reaches the data's
/// root from the index drawn, every fold of the last opening is the final
/// polynomial, and the closing identity holds.
pub open spec fn passes_on(
    cfg: VerifyConfig,
    data: VerifyData,
    ch: Draws,
    end: Duplex,
    l: Layout,
    u: Seq<int>,
) -> bool {
    &&& rounds_on(cfg, data, ch, end, l, u, (verify::last(cfg) + 1) as nat)
    &&& all_agree_on(cfg, data, ch, end, l, u)
    &&& closes_on(cfg, data, ch, end, l, u)
}

// ---------------------------------------------------------------------------
// Building.
// ---------------------------------------------------------------------------

/// The steps of round `i`: every row hashed and walked to its root, and the
/// sumcheck that follows.
pub open spec fn round_work(cfg: VerifyConfig, data: VerifyData, ch: Draws, i: nat) -> Census {
    script::together(
        script::walked(verify::positions(cfg, ch, i).len()),
        script::folded(
            if i < verify::last(cfg) {
                data.transcript.rounds@[i as int].sumcheck@.len()
            } else {
                data.transcript.final_sumcheck@.len()
            },
        ),
    )
}

/// The steps of the rounds before `i`.
pub open spec fn rounds_work(cfg: VerifyConfig, data: VerifyData, ch: Draws, i: nat) -> Census
    decreases i,
{
    if i == 0 {
        script::folded(0)
    } else {
        script::together(
            rounds_work(cfg, data, ch, (i - 1) as nat),
            round_work(cfg, data, ch, (i - 1) as nat),
        )
    }
}

/// The steps after the transcript.
pub open spec fn arithmetic_work(cfg: VerifyConfig, data: VerifyData, ch: Draws) -> Census {
    script::together(
        script::folded(data.transcript.initial_sumcheck@.len()),
        rounds_work(cfg, data, ch, (verify::last(cfg) + 1) as nat),
    )
}

/// The steps of the transcript: a permutation wherever the sponge permutes, and a
/// read of its state for every draw.
pub open spec fn transcript_work(end: sponge::Duplex) -> Census {
    Census {
        absorbs: end.permutations,
        samples: end.drawn.len(),
        hashes: 0,
        walks: 0,
        sumchecks: 0,
    }
}

/// The builder is past the transcript, with the layout of what it logged.
pub open spec fn ready(
    b: Builder,
    l: Layout,
    cfg: VerifyConfig,
    data: VerifyData,
    ch: Draws,
    end: Duplex,
    k: Seq<Val>,
) -> bool {
    &&& b.holds(k, none(), none())
    &&& laid_out(l, cfg, data, ch, end)
    &&& prefix(symbols::drawn(end.calls, end.drawn.len()), k)
    &&& log::prefix(end.seen, b.words())
    &&& permutation::ints(b.samples@) == end.drawn
}

/// The layout of a transcript without proofs of work.
pub open spec fn laid_out(l: Layout, cfg: VerifyConfig, data: VerifyData, ch: Draws, end: Duplex) -> bool {
    &&& placed(l, cfg.transcript, data.transcript, ch, end.seen, end.drawn)
    &&& layout::workless(cfg.transcript)
    &&& sponge::traced(end)
    &&& ch.pow_ok
    &&& ch.rounds.len() == cfg.transcript.rounds@.len()
    &&& forall|i: int| 0 <= i < ch.rounds.len() ==> (#[trigger] ch.rounds[i]).pow_ok
}

/// The draws have the lengths the messages call for, and positions are in range.
pub open spec fn measured_draws(cfg: VerifyConfig, data: VerifyData, ch: Draws) -> bool {
    let t = data.transcript;
    &&& ch.initial_ood_points.len() == t.initial_ood_answers@.len()
    &&& ch.opening_points.len() == t.openings@.len()
    &&& ch.initial_folding.len() == t.initial_sumcheck@.len()
    &&& ch.rounds.len() == verify::last(cfg)
    &&& t.rounds@.len() == verify::last(cfg)
    &&& ch.final_folding.len() == t.final_sumcheck@.len()
    &&& forall|i: int|
        0 <= i < ch.rounds.len() ==> {
            &&& (#[trigger] ch.rounds[i]).folding.len() == t.rounds@[i].sumcheck@.len()
            &&& ch.rounds[i].ood_points.len() == t.rounds@[i].ood_answers@.len()
        }
    &&& forall|i: nat, q: int|
        i <= verify::last(cfg) && 0 <= q < verify::positions(cfg, ch, i).len() ==> 0
            <= #[trigger] verify::positions(cfg, ch, i)[q] < pow2(verify::depth(cfg, i))
    &&& forall|i: nat|
        i <= verify::last(cfg) ==> (#[trigger] verify::positions(cfg, ch, i)).len() > 0
}

/// The kept region starts with what the transcript draws.
pub proof fn lemma_samples(end: Duplex, k: Seq<Val>, u: Seq<int>)
    requires
        sponge::traced(end),
        prefix(symbols::drawn(end.calls, end.drawn.len()), k),
    ensures
        reading::samples(end, u).len() == end.drawn.len(),
        end.drawn.len() <= k.len(),
        forall|i: int|
            0 <= i < end.drawn.len() ==> #[trigger] at(k, u)[i] == reading::samples(end, u)[i],
        reading::samples(end, end.seen) == end.drawn,
        permutation::canonical(reading::samples(end, u)),
{
    sponge::law_followed(end.calls, u, end.seen);
    let d = symbols::drawn(end.calls, end.drawn.len());
    assert forall|i: int| 0 <= i < end.drawn.len() implies #[trigger] at(k, u)[i]
        == reading::samples(end, u)[i] by {
        assert(k[i] == d[i]);
    }
}

/// Every entry is among the draws.
pub proof fn lemma_ranges(cfg: VerifyConfig, data: VerifyData, l: Layout, ch: Draws, end: Duplex)
    requires
        laid_out(l, cfg, data, ch, end),
    ensures
        ({
            let n = end.drawn.len();
            &&& in_range(l.k_ood@, n)
            &&& in_range(l.k_claim@, n)
            &&& l.k_alpha + 4 <= n
            &&& in_range(l.k_initial_fold@, n)
            &&& in_range(l.k_final_fold@, n)
            &&& l.rounds@.len() == verify::last(cfg)
            &&& l.k_claim@.len() == ch.opening_points.len()
            &&& forall|i: int|
                0 <= i < l.rounds@.len() ==> in_range((#[trigger] l.rounds@[i]).k_fold@, n)
            &&& forall|i: int|
                0 <= i < l.rounds@.len() ==> in_range((#[trigger] l.rounds@[i]).k_ood@, n)
                    && l.rounds@[i].k_combination + 4 <= n
        }),
{
    let n = end.drawn.len();
    assert forall|i: int| 0 <= i < l.rounds@.len() implies in_range(
        (#[trigger] l.rounds@[i]).k_fold@,
        n,
    ) && in_range(l.rounds@[i].k_ood@, n) && l.rounds@[i].k_combination + 4 <= n by {
        assert(round_placed(
            l.rounds@[i],
            cfg.transcript.rounds@[i],
            data.transcript.rounds@[i],
            ch.rounds[i],
            end.seen,
            end.drawn,
        ));
    }
}

/// Extension elements that stand at places are those at the places.
proof fn lemma_stands(s: Seq<int>, places: Seq<u128>, vals: Seq<Quad>)
    requires
        log::stand(s, places, vals),
    ensures
        in_range(places, s.len()),
        reading::quads(s, places) == vals,
{
    assert forall|j: int| 0 <= j < places.len() implies reading::quads(s, places)[j] == vals[j] by {
        assert(places[j] + 4 <= s.len());
    }
    assert(reading::quads(s, places) =~= vals);
}

/// A block of draws gives its positions.
proof fn lemma_block(s: Seq<int>, entries: Seq<u128>, bits: nat, num: nat, qs: Seq<int>)
    requires
        layout::draws_stand(s, entries, bits, num, qs),
    ensures
        reading::block(s, s, bits, num, entries) == qs,
{
    let lo = first_of(entries);
    let hi = lo + entries.len();
    reading::lemma_kept(s, bits, lo, hi);
    let es = reading::kept(s, bits, lo, hi);
    let got = reading::block(s, s, bits, num, entries);
    if num < pow2(bits) {
        assert forall|j: int| 0 <= j < es.len() implies got[j] == qs[j] by {
            assert(lo <= es[j] < hi);
        }
    }
    assert(got =~= qs);
}

/// On its own data the challenges are the proof's.
pub proof fn lemma_own(cfg: VerifyConfig, data: VerifyData, l: Layout, ch: Draws, end: Duplex)
    requires
        laid_out(l, cfg, data, ch, end),
    ensures
        challenges(cfg, l, end, end.seen) == ch,
{
    let t = cfg.transcript;
    let got = challenges(cfg, l, end, end.seen);
    assert(reading::samples(end, end.seen) == end.drawn);
    lemma_stands(end.drawn, l.k_ood@, ch.initial_ood_points);
    lemma_stands(end.drawn, l.k_claim@, ch.opening_points);
    lemma_stands(end.drawn, l.k_initial_fold@, ch.initial_folding);
    lemma_stands(end.drawn, l.k_final_fold@, ch.final_folding);
    lemma_block(
        end.drawn,
        l.k_final_draws@,
        t.final_domain_bits as nat,
        t.final_queries as nat,
        ch.final_queries,
    );
    assert forall|i: int| 0 <= i < l.rounds@.len() implies got.rounds[i] == ch.rounds[i] by {
        let (rl, rc, rr) = (l.rounds@[i], t.rounds@[i], ch.rounds[i]);
        assert(round_placed(rl, rc, data.transcript.rounds@[i], rr, end.seen, end.drawn));
        lemma_stands(end.drawn, rl.k_ood@, rr.ood_points);
        lemma_stands(end.drawn, rl.k_fold@, rr.folding);
        lemma_block(
            end.drawn,
            rl.k_draws@,
            rc.domain_bits as nat,
            rc.num_queries as nat,
            rr.queries,
        );
        assert(rr.pow_ok);
    }
    assert(got.rounds =~= ch.rounds);
}

/// The places of every claimed value, in the order they are batched.
fn claimed_places(l: &Layout, Ghost(n): Ghost<nat>) -> (r: Vec<u128>)
    requires
        forall|c: int| 0 <= c < l.evals@.len() ==> in_range((#[trigger] l.evals@[c])@, n),
        in_range(l.ood_answers@, n),
    ensures
        in_range(r@, n),
        r@ == claimed(l.evals@, l.evals@.len()) + l.ood_answers@,
{
    let mut r: Vec<u128> = Vec::new();
    let mut c: usize = 0;
    while c < l.evals.len()
        invariant
            c <= l.evals@.len(),
            forall|c: int| 0 <= c < l.evals@.len() ==> in_range((#[trigger] l.evals@[c])@, n),
            in_range(r@, n),
            r@ == claimed(l.evals@, c as nat),
        decreases l.evals@.len() - c,
    {
        assert(in_range(l.evals@[c as int]@, n));
        append_entries(&mut r, &l.evals[c], Ghost(n));
        c = c + 1;
    }
    append_entries(&mut r, &l.ood_answers, Ghost(n));
    r
}

/// Entries after entries.
pub(crate) fn append_entries(r: &mut Vec<u128>, more: &Vec<u128>, Ghost(n): Ghost<nat>)
    requires
        in_range(old(r)@, n),
        in_range(more@, n),
    ensures
        final(r)@ == old(r)@ + more@,
        in_range(final(r)@, n),
{
    let mut j: usize = 0;
    assert(r@ + more@.take(0) =~= r@);
    while j < more.len()
        invariant
            j <= more@.len(),
            in_range(more@, n),
            in_range(r@, n),
            r@ == old(r)@ + more@.take(j as int),
        decreases more@.len() - j,
    {
        assert(more@[j as int] + 4 <= n);
        r.push(more[j]);
        j = j + 1;
        assert(more@.take(j as int) =~= more@.take(j - 1).push(more@[j - 1]));
        assert(r@ =~= old(r)@ + more@.take(j as int));
    }
    assert(more@.take(j as int) =~= more@);
}

/// Extension elements of the data.
proof fn lemma_stream(n: nat, places: Seq<u128>, u: Seq<int>)
    requires
        in_range(places, n),
    ensures
        stand(symbols::data(n), places, symbols::picked(symbols::data(n), places)),
        ats(symbols::picked(symbols::data(n), places), u) == reading::quads(u, places),
{
    let s = symbols::data(n);
    reading::lemma_picked(s, places, u);
    assert forall|j: int| 0 <= j < places.len() implies reading::quads(at(s, u), places)[j]
        == reading::quads(u, places)[j] by {
        assert(places[j] + 4 <= n);
    }
    assert(reading::quads(at(s, u), places) =~= reading::quads(u, places));
}

/// Pairs that stand at places, in a list of `n`.
pub open spec fn pairs_in_range(places: Seq<(u128, u128)>, n: nat) -> bool {
    forall|j: int|
        0 <= j < places.len() ==> (#[trigger] places[j]).0 + 4 <= n && places[j].1 + 4 <= n
}

/// Pairs of extension elements of the data.
proof fn lemma_stream_pairs(n: nat, places: Seq<(u128, u128)>, u: Seq<int>)
    requires
        pairs_in_range(places, n),
    ensures
        symbols::pairs_stand(
            symbols::data(n),
            places,
            symbols::picked_pairs(symbols::data(n), places),
        ),
        symbols::pair_ats(symbols::picked_pairs(symbols::data(n), places), u) == reading::pairs(
            u,
            places,
        ),
{
    let s = symbols::data(n);
    let ps = symbols::picked_pairs(s, places);
    assert forall|j: int| 0 <= j < places.len() implies symbols::pair_ats(ps, u)[j]
        == reading::pairs(u, places)[j] by {
        assert(places[j].0 + 4 <= n);
    }
    assert(symbols::pair_ats(ps, u) =~= reading::pairs(u, places));
}

/// A whole sumcheck on all data.
proof fn lemma_sumcheck(
    claim: Sym,
    n: nat,
    messages: Seq<(u128, u128)>,
    k: Seq<Val>,
    folds: Seq<u128>,
    u: Seq<int>,
)
    requires
        pairs_in_range(messages, n),
        in_range(folds, k.len()),
        messages.len() == folds.len(),
    ensures
        symbols::sumcheck_claim(
            claim,
            symbols::picked_pairs(symbols::data(n), messages),
            symbols::picked(k, folds),
            messages.len(),
        ).at(u) == model::sumcheck_claim(
            claim.at(u),
            reading::pairs(u, messages),
            reading::quads(at(k, u), folds),
            messages.len(),
        ),
{
    lemma_stream_pairs(n, messages, u);
    reading::lemma_picked(k, folds, u);
    symbols::lemma_sumcheck_claim(
        claim,
        symbols::picked_pairs(symbols::data(n), messages),
        symbols::picked(k, folds),
        messages.len(),
        u,
    );
}

/// Everything the transcript saw lies in the data, where the layout says.
proof fn lemma_seen(cfg: VerifyConfig, data: VerifyData, l: Layout, ch: Draws, end: Duplex)
    requires
        laid_out(l, cfg, data, ch, end),
    ensures
        ({
            let n = end.seen.len();
            &&& forall|c: int| 0 <= c < l.evals@.len() ==> in_range((#[trigger] l.evals@[c])@, n)
            &&& in_range(l.ood_answers@, n)
            &&& pairs_in_range(l.initial_sumcheck@, n)
            &&& l.initial_sumcheck@.len() == data.transcript.initial_sumcheck@.len()
            &&& pairs_in_range(l.final_sumcheck@, n)
            &&& l.final_sumcheck@.len() == data.transcript.final_sumcheck@.len()
            &&& l.final_poly + 4 * data.transcript.final_poly@.len() <= n
            &&& l.root + data.transcript.root@.len() <= n
            &&& l.k_initial_fold@.len() == ch.initial_folding.len()
            &&& l.k_final_fold@.len() == ch.final_folding.len()
            &&& forall|i: int|
                0 <= i < l.rounds@.len() ==> round_seen(
                    #[trigger] l.rounds@[i],
                    data.transcript.rounds@[i],
                    ch.rounds[i],
                    n,
                )
        }),
{
    script::lemma_spread_len(ext4::quads(data.transcript.final_poly@));
    assert forall|c: int| 0 <= c < l.evals@.len() implies in_range(
        (#[trigger] l.evals@[c])@,
        end.seen.len(),
    ) by {
        lemma_stands(end.seen, l.evals@[c]@, ext4::quads(data.transcript.openings@[c]@));
    }
    assert forall|i: int| 0 <= i < l.rounds@.len() implies round_seen(
        #[trigger] l.rounds@[i],
        data.transcript.rounds@[i],
        ch.rounds[i],
        end.seen.len(),
    ) by {
        assert(round_placed(
            l.rounds@[i],
            cfg.transcript.rounds@[i],
            data.transcript.rounds@[i],
            ch.rounds[i],
            end.seen,
            end.drawn,
        ));
    }
}

/// A round's messages lie in the data.
pub open spec fn round_seen(
    l: layout::RoundLayout,
    rd: reference::RoundData,
    r: reference::RoundDraws,
    n: nat,
) -> bool {
    &&& l.root + rd.root@.len() <= n
    &&& in_range(l.ood_answers@, n)
    &&& pairs_in_range(l.sumcheck@, n)
    &&& l.sumcheck@.len() == rd.sumcheck@.len()
    &&& l.k_fold@.len() == r.folding.len()
}

/// The claim is kept at `e`, whatever the data.
pub open spec fn claim_kept(
    k: Seq<Val>,
    e: u128,
    cfg: VerifyConfig,
    data: VerifyData,
    ch: Draws,
    end: Duplex,
    l: Layout,
    i: nat,
) -> bool {
    &&& e + 4 <= k.len()
    &&& forall|u: Seq<int>| #[trigger]
        quad_at(k, e as int).at(u) == claim_on(cfg, data, ch, end, l, u, i)
}

proof fn lemma_claim_kept(
    k: Seq<Val>,
    k1: Seq<Val>,
    e: u128,
    cfg: VerifyConfig,
    data: VerifyData,
    ch: Draws,
    end: Duplex,
    l: Layout,
    i: nat,
)
    requires
        prefix(k, k1),
        claim_kept(k, e, cfg, data, ch, end, l, i),
    ensures
        claim_kept(k1, e, cfg, data, ch, end, l, i),
{
    symbols::lemma_quad_prefix(k, k1, e as int);
    assert forall|u: Seq<int>| #[trigger] quad_at(k1, e as int).at(u) == claim_on(
        cfg,
        data,
        ch,
        end,
        l,
        u,
        i,
    ) by {
        assert(quad_at(k, e as int).at(u) == claim_on(cfg, data, ch, end, l, u, i));
    }
}

/// The initial claim and its sumcheck.
fn open_claim(
    b: &mut Builder,
    l: &Layout,
    Ghost(cfg): Ghost<VerifyConfig>,
    Ghost(data): Ghost<VerifyData>,
    Ghost(ch): Ghost<Draws>,
    Ghost(end): Ghost<Duplex>,
    Ghost(k): Ghost<Seq<Val>>,
) -> (r: (u128, Ghost<Seq<Val>>))
    requires
        ready(*old(b), *l, cfg, data, ch, end, k),
        measured_draws(cfg, data, ch),
        verify::initial_evals(data.transcript).len() > 0,
    ensures
        ready(*final(b), *l, cfg, data, ch, end, r.1@),
        final(b).more(
            old(b),
            script::folded(data.transcript.initial_sumcheck@.len()),
        ),
        prefix(k, r.1@),
        claim_kept(r.1@, r.0, cfg, data, ch, end, *l, 0),
{
    let ghost n = b.tape.data@.len();
    proof {
        lemma_seen(cfg, data, *l, ch, end);
        lemma_ranges(cfg, data, *l, ch, end);
        lemma_samples(end, k, end.seen);
        lemma_eval_count(data, *l, end, l.evals@.len());
        assert(n == b.words().len());
    }
    let places = claimed_places(l, Ghost(n));
    let ghost vals = symbols::picked(b.stream(), places@);
    proof {
        lemma_stream(n, places@, end.seen);
    }
    b.batch(l.k_alpha, places.as_slice(), Ghost(k), Ghost(vals));
    let ghost v = symbols::nested(quad_at(k, l.k_alpha as int), vals);
    proof {
        assert(none() + sp(v) =~= sp(v));
        lemma_one(v);
        lemma_appended(k, v);
    }
    let e = b.bury(4, Ghost(k), Ghost(sp(v)), Ghost(none()));
    let ghost k1 = k + sp(v);
    let ghost polys = symbols::picked_pairs(b.stream(), l.initial_sumcheck@);
    let ghost rs = symbols::picked(k1, l.k_initial_fold@);
    proof {
        lemma_stream_pairs(n, l.initial_sumcheck@, end.seen);
        reading::lemma_picked(k1, l.k_initial_fold@, end.seen);
    }
    let (next, Ghost(k2)) = b.sumcheck_rounds(
        e,
        l.initial_sumcheck.as_slice(),
        l.k_initial_fold.as_slice(),
        Ghost(k1),
        Ghost(v),
        Ghost(polys),
        Ghost(rs),
    );
    proof {
        assert forall|u: Seq<int>| #[trigger] quad_at(k2, next as int).at(u) == claim_on(
            cfg,
            data,
            ch,
            end,
            *l,
            u,
            0,
        ) by {
            lemma_samples(end, k, u);
            lemma_samples(end, k1, u);
            let s = reading::samples(end, u);
            lemma_stream(n, places@, u);
            symbols::lemma_nested(quad_at(k, l.k_alpha as int), vals, u);
            lemma_sumcheck(v, n, l.initial_sumcheck@, k1, l.k_initial_fold@, u);
            reading::lemma_same_quads(s, at(k1, u), l.k_initial_fold@);
            assert(quad_at(k, l.k_alpha as int).at(u) == script::quad_at(s, l.k_alpha as int));
        }
    }
    (next, Ghost(k2))
}

/// There is a place for every claimed value.
proof fn lemma_eval_count(data: VerifyData, l: Layout, end: Duplex, k: nat)
    requires
        l.evals@.len() == data.transcript.openings@.len(),
        log::stand(
            end.seen,
            l.ood_answers@,
            ext4::quads(data.transcript.initial_ood_answers@),
        ),
        forall|c: int|
            0 <= c < l.evals@.len() ==> log::stand(
                end.seen,
                (#[trigger] l.evals@[c])@,
                ext4::quads(data.transcript.openings@[c]@),
            ),
        k <= l.evals@.len(),
    ensures
        in_range(claimed(l.evals@, k), end.seen.len()),
        reading::quads(end.seen, claimed(l.evals@, k)) == verify::flat(
            data.transcript.openings@,
            k,
        ),
        k == l.evals@.len() ==> evals_on(l, end.seen) == verify::initial_evals(data.transcript)
            && (claimed(l.evals@, k) + l.ood_answers@).len() == verify::initial_evals(
            data.transcript,
        ).len(),
    decreases k,
{
    let s = end.seen;
    if k == 0 {
        assert(reading::quads(s, claimed(l.evals@, 0)) =~= Seq::<Quad>::empty());
    } else {
        let m = (k - 1) as nat;
        lemma_eval_count(data, l, end, m);
        lemma_stands(s, l.evals@[m as int]@, ext4::quads(data.transcript.openings@[m as int]@));
        assert(reading::quads(s, claimed(l.evals@, k)) =~= reading::quads(s, claimed(l.evals@, m))
            + reading::quads(s, l.evals@[m as int]@));
    }
    lemma_stands(s, l.ood_answers@, ext4::quads(data.transcript.initial_ood_answers@));
    assert(reading::quads(s, claimed(l.evals@, k) + l.ood_answers@) =~= reading::quads(
        s,
        claimed(l.evals@, k),
    ) + reading::quads(s, l.ood_answers@));
}

/// The kept points of round `i`, whatever the data.
pub open spec fn points_on(
    k: Seq<Val>,
    entries: Seq<u128>,
    cfg: VerifyConfig,
    l: Layout,
    end: Duplex,
    i: nat,
) -> bool {
    &&& forall|j: int| 0 <= j < entries.len() ==> (#[trigger] entries[j]) < k.len()
    &&& forall|u: Seq<int>| #[trigger]
        reading::bases(at(k, u), entries) == verify::points(
            verify::generator(cfg, i),
            verify::positions(cfg, challenges(cfg, l, end, u), i),
        )
}

pub proof fn lemma_points_on(
    k: Seq<Val>,
    entries: Seq<u128>,
    cfg: VerifyConfig,
    l: Layout,
    end: Duplex,
    i: nat,
    u: Seq<int>,
)
    requires
        points_on(k, entries, cfg, l, end, i),
    ensures
        reading::bases(at(k, u), entries) == verify::points(
            verify::generator(cfg, i),
            verify::positions(cfg, challenges(cfg, l, end, u), i),
        ),
{
}

proof fn lemma_points_kept(
    k: Seq<Val>,
    k1: Seq<Val>,
    entries: Seq<u128>,
    cfg: VerifyConfig,
    l: Layout,
    end: Duplex,
    i: nat,
)
    requires
        prefix(k, k1),
        points_on(k, entries, cfg, l, end, i),
    ensures
        points_on(k1, entries, cfg, l, end, i),
{
    assert forall|u: Seq<int>| #[trigger] reading::bases(at(k1, u), entries) == verify::points(
        verify::generator(cfg, i),
        verify::positions(cfg, challenges(cfg, l, end, u), i),
    ) by {
        assert forall|j: int| 0 <= j < entries.len() implies reading::bases(at(k1, u), entries)[j]
            == reading::bases(at(k, u), entries)[j] by {
            assert(entries[j] < k.len());
            assert(k1[entries[j] as int] == k[entries[j] as int]);
        }
        assert(reading::bases(at(k1, u), entries) =~= reading::bases(at(k, u), entries));
        lemma_points_on(k, entries, cfg, l, end, i, u);
    }
}

/// The indices of round `i`, whatever the data.
pub open spec fn index_vals(cfg: VerifyConfig, l: Layout, end: Duplex, k: Seq<Val>, i: nat) -> Seq<
    Val,
> {
    let entries = query_entries(cfg, l, i);
    let lo = first_of(entries);
    reading::indices(
        k,
        end.drawn,
        verify::depth(cfg, i),
        query_number(cfg, i),
        lo,
        lo + entries.len(),
    )
}

/// The indices are the positions drawn.
proof fn lemma_indices(cfg: VerifyConfig, l: Layout, end: Duplex, k: Seq<Val>, i: nat, u: Seq<int>)
    requires
        sponge::traced(end),
        prefix(symbols::drawn(end.calls, end.drawn.len()), k),
        i <= verify::last(cfg),
        l.rounds@.len() == verify::last(cfg),
        ({
            let entries = query_entries(cfg, l, i);
            first_of(entries) + entries.len() <= end.drawn.len()
        }),
    ensures
        at(index_vals(cfg, l, end, k, i), u) == verify::positions(
            cfg,
            challenges(cfg, l, end, u),
            i,
        ),
        forall|q: int|
            0 <= q < index_vals(cfg, l, end, k, i).len() ==> 0 <= #[trigger] index_vals(
                cfg,
                l,
                end,
                k,
                i,
            )[q](u) < pow2(verify::depth(cfg, i)),
{
    let vals = index_vals(cfg, l, end, k, i);
    let bits = verify::depth(cfg, i);
    let entries = query_entries(cfg, l, i);
    let lo = first_of(entries);
    let hi = lo + entries.len();
    let s = reading::samples(end, u);
    let want = verify::positions(cfg, challenges(cfg, l, end, u), i);
    lemma_samples(end, k, u);
    lemma_pow2_pos(bits);
    reading::lemma_kept(end.drawn, bits, lo, hi);
    let es = reading::kept(end.drawn, bits, lo, hi);
    assert(want == reading::block(end.drawn, s, bits, query_number(cfg, i), entries));
    assert forall|q: int| 0 <= q < vals.len() implies at(vals, u)[q] == want[q] && 0
        <= #[trigger] vals[q](u) < pow2(bits) by {
        if query_number(cfg, i) < pow2(bits) {
            assert(lo <= es[q] < hi);
            assert(at(k, u)[es[q]] == s[es[q]]);
            vstd::arithmetic::div_mod::lemma_mod_bound(s[es[q]], pow2(bits) as int);
        }
    }
    assert(at(vals, u) =~= want);
}

/// What `open_round` leaves kept, whatever the data.
pub open spec fn round_kept(
    k: Seq<Val>,
    folds: Seq<u128>,
    points: Seq<u128>,
    cfg: VerifyConfig,
    data: VerifyData,
    ch: Draws,
    end: Duplex,
    l: Layout,
    i: nat,
) -> bool {
    &&& in_range(folds, k.len())
    &&& folds.len() == verify::positions(cfg, ch, i).len()
    &&& forall|u: Seq<int>| #[trigger]
        reading::quads(at(k, u), folds) == folds_on(cfg, data, ch, end, l, u, i)
    &&& points_on(k, points, cfg, l, end, i)
    &&& points.len() == verify::positions(cfg, ch, i).len()
}

/// What stands kept, read back.
proof fn lemma_round_kept(
    k1: Seq<Val>,
    k: Seq<Val>,
    folds: Seq<u128>,
    points: Seq<u128>,
    starts: Seq<u128>,
    cfg: VerifyConfig,
    data: VerifyData,
    ch: Draws,
    end: Duplex,
    l: Layout,
    i: nat,
)
    requires
        laid_out(l, cfg, data, ch, end),
        prefix(symbols::drawn(end.calls, end.drawn.len()), k),
        i <= verify::last(cfg),
        ({
            let entries = query_entries(cfg, l, i);
            first_of(entries) + entries.len() <= end.drawn.len()
        }),
        starts.len() == verify::positions(cfg, ch, i).len(),
        index_vals(cfg, l, end, k, i).len() == starts.len(),
        forall|q: int|
            0 <= q < starts.len() ==> #[trigger] starts[q] == row_place(cfg, data, ch, end, i, q),
        stand(
            k1,
            folds,
            stir::fold_syms(
                verify::opening(cfg, data, i).extension,
                starts,
                verify::depth(cfg, i),
                row_count(cfg, data, i),
                symbols::picked(k, fold_places(l, i)),
            ),
        ),
        stir::bases_stand(
            k1,
            points,
            stir::point_vals(
                verify::generator(cfg, i),
                verify::depth(cfg, i),
                index_vals(cfg, l, end, k, i),
            ),
        ),
    ensures
        round_kept(k1, folds, points, cfg, data, ch, end, l, i),
{
    let vals = index_vals(cfg, l, end, k, i);
    let depth = verify::depth(cfg, i);
    let gen = verify::generator(cfg, i);
    let point = symbols::picked(k, fold_places(l, i));
    let extension = verify::opening(cfg, data, i).extension;
    let count = row_count(cfg, data, i);
    let fs = stir::fold_syms(extension, starts, depth, count, point);
    let zs = stir::point_vals(gen, depth, vals);
    lemma_ranges(cfg, data, l, ch, end);
    assert(in_range(fold_places(l, i), end.drawn.len())) by {
        if i > 0 {
            assert(in_range(l.rounds@[i - 1].k_fold@, end.drawn.len()));
        }
    }
    assert forall|u: Seq<int>| #[trigger] reading::quads(at(k1, u), folds) == folds_on(
        cfg,
        data,
        ch,
        end,
        l,
        u,
        i,
    ) by {
        let s = reading::samples(end, u);
        lemma_samples(end, k, u);
        reading::lemma_picked(k, fold_places(l, i), u);
        reading::lemma_same_quads(s, at(k, u), fold_places(l, i));
        assert(ats(point, u) == verify::folding_before(challenges(cfg, l, end, u), i));
        let got = reading::quads(at(k1, u), folds);
        let want = folds_on(cfg, data, ch, end, l, u, i);
        assert forall|q: int| 0 <= q < folds.len() implies got[q] == want[q] by {
            assert(folds[q] + 4 <= k1.len());
            assert(quad_at(k1, folds[q] as int) == fs[q]);
            assert(starts[q] == row_place(cfg, data, ch, end, i, q));
            reading::lemma_row(extension, starts[q] + 8 * depth, count, u);
        }
        assert(got =~= want);
    }
    assert forall|u: Seq<int>| #[trigger] reading::bases(at(k1, u), points) == verify::points(
        gen,
        verify::positions(cfg, challenges(cfg, l, end, u), i),
    ) by {
        lemma_indices(cfg, l, end, k, i, u);
        let idx = verify::positions(cfg, challenges(cfg, l, end, u), i);
        let got = reading::bases(at(k1, u), points);
        assert forall|q: int| 0 <= q < points.len() implies got[q] == verify::points(gen, idx)[q] by {
            assert(points[q] < k1.len());
            assert(k1[points[q] as int] == zs[q]);
            assert(0 <= vals[q](u) < pow2(depth));
            assert(at(vals, u)[q] == idx[q]);
            vstd::arithmetic::div_mod::lemma_small_mod(vals[q](u) as nat, pow2(depth));
        }
        assert(got =~= verify::points(gen, idx));
    }
    assert forall|j: int| 0 <= j < points.len() implies (#[trigger] points[j]) < k1.len() by {}
}

/// What a round's opening requires, whatever the data.
proof fn lemma_round_on(
    starts: Seq<u128>,
    k: Seq<Val>,
    cfg: VerifyConfig,
    data: VerifyData,
    ch: Draws,
    end: Duplex,
    l: Layout,
    i: nat,
    u: Seq<int>,
)
    requires
        sponge::traced(end),
        prefix(symbols::drawn(end.calls, end.drawn.len()), k),
        l.rounds@.len() == verify::last(cfg),
        i <= verify::last(cfg),
        ({
            let entries = query_entries(cfg, l, i);
            0 <= first_of(entries) && first_of(entries) + entries.len() <= end.drawn.len()
        }),
        starts.len() == verify::positions(cfg, ch, i).len(),
        index_vals(cfg, l, end, k, i).len() == starts.len(),
        forall|q: int|
            0 <= q < starts.len() ==> #[trigger] starts[q] == row_place(cfg, data, ch, end, i, q),
    ensures
        ({
            let entries = query_entries(cfg, l, i);
            let lo = first_of(entries);
            round_on(cfg, data, ch, end, l, u, i) <==> reading::alike(
                k,
                end.drawn,
                verify::depth(cfg, i),
                query_number(cfg, i),
                lo,
                lo + entries.len(),
            )(u) && stir::rows_reach(
                u,
                root_place(l, i),
                starts,
                verify::depth(cfg, i),
                row_len(cfg, data, i),
                index_vals(cfg, l, end, k, i),
                starts.len() as int,
            )
        }),
{
    let entries = query_entries(cfg, l, i);
    let lo = first_of(entries);
    let hi = lo + entries.len();
    let bits = verify::depth(cfg, i);
    let num = query_number(cfg, i);
    let len = row_len(cfg, data, i);
    let root = root_place(l, i);
    let vals = index_vals(cfg, l, end, k, i);
    let s = reading::samples(end, u);
    lemma_samples(end, k, u);
    lemma_indices(cfg, l, end, k, i, u);
    let kk = at(k, u);
    assert(reading::same_draws(end.drawn, kk, bits, num, lo, hi) == reading::same_draws(
        end.drawn,
        s,
        bits,
        num,
        lo,
        hi,
    )) by {
        if reading::same_draws(end.drawn, kk, bits, num, lo, hi) {
            assert forall|e: int| lo <= e < hi implies num < pow2(bits) ==> (#[trigger] s[e]
                < sponge::threshold(bits)) == (end.drawn[e] < sponge::threshold(bits)) by {
                assert(kk[e] == s[e]);
            }
        }
        if reading::same_draws(end.drawn, s, bits, num, lo, hi) {
            assert forall|e: int| lo <= e < hi implies num < pow2(bits) ==> (#[trigger] kk[e]
                < sponge::threshold(bits)) == (end.drawn[e] < sponge::threshold(bits)) by {
                assert(kk[e] == s[e]);
            }
        }
    }
    assert forall|q: int| 0 <= q < starts.len() implies #[trigger] stir::row_reaches(
        u,
        root,
        starts,
        bits,
        len,
        vals,
        q,
    ) == reaches_on(cfg, data, ch, end, l, u, i, q) by {
        assert(starts[q] == row_place(cfg, data, ch, end, i, q));
        assert(at(vals, u)[q] == vals[q](u));
    }
    if round_on(cfg, data, ch, end, l, u, i) {
        assert forall|q: int| 0 <= q < starts.len() implies #[trigger] stir::row_reaches(
            u,
            root,
            starts,
            bits,
            len,
            vals,
            q,
        ) by {
            assert(reaches_on(cfg, data, ch, end, l, u, i, q));
        }
    }
    if stir::rows_reach(u, root, starts, bits, len, vals, starts.len() as int) {
        assert forall|q: int| 0 <= q < verify::positions(cfg, ch, i).len() implies #[trigger] reaches_on(
            cfg,
            data,
            ch,
            end,
            l,
            u,
            i,
            q,
        ) by {
            assert(stir::row_reaches(u, root, starts, bits, len, vals, q));
        }
    }
}

/// Every row of an opening is as long as the first.
proof fn lemma_row_len(cfg: VerifyConfig, data: VerifyData, i: nat, folding: nat)
    requires
        verify::measured(verify::opening(cfg, data, i), folding),
        verify::opening(cfg, data, i).rows@.len() > 0,
    ensures
        row_count(cfg, data, i) == pow2(folding),
        forall|q: int|
            0 <= q < verify::opening(cfg, data, i).rows@.len() ==> (#[trigger] verify::opening(
                cfg,
                data,
                i,
            ).rows@[q])@.len() == row_len(cfg, data, i),
{
    let o = verify::opening(cfg, data, i);
    assert(o.rows@[0]@.len() == row_len(cfg, data, i));
    assert(verify::row_elems(o.extension, o.rows@[0]@).len() == pow2(folding));
    assert forall|q: int| 0 <= q < o.rows@.len() implies (#[trigger] o.rows@[q])@.len() == row_len(
        cfg,
        data,
        i,
    ) by {
        assert(verify::row_elems(o.extension, o.rows@[q]@).len() == pow2(folding));
    }
}

/// The rows of round `i` authenticated and folded: the kept folds and points.
#[verifier::rlimit(60)]
fn open_round(
    b: &mut Builder,
    l: &Layout,
    cfg: &VerifyConfig,
    data: &VerifyData,
    i: usize,
    Ghost(ch): Ghost<Draws>,
    Ghost(end): Ghost<Duplex>,
    Ghost(k): Ghost<Seq<Val>>,
) -> (r: Result<(Vec<u128>, Vec<u128>, Ghost<Seq<Val>>), Error>)
    requires
        ready(*old(b), *l, *cfg, *data, ch, end, k),
        measured_draws(*cfg, *data, ch),
        buildable(*cfg, *data, ch),
        i <= verify::last(*cfg),
        laid_before(*cfg, *data, ch, i as nat),
        old(b).words() == end.seen + words_before(*cfg, *data, ch, i as nat),
    ensures
        r is Ok <==> laid_round(*cfg, *data, ch, i as nat),
        r matches Err(e) ==> e == round_refusal(*cfg, *data, ch, i as nat),
        r matches Ok((folds, points, k1)) ==> {
            &&& ready(*final(b), *l, *cfg, *data, ch, end, k1@)
            &&& final(b).words() == end.seen + words_before(*cfg, *data, ch, (i + 1) as nat)
            &&& prefix(k, k1@)
            &&& final(b).census() == script::together(
                old(b).census(),
                script::walked(verify::positions(*cfg, ch, i as nat).len()),
            )
            &&& forall|u: Seq<int>| #[trigger]
                (final(b).tape.ok@)(u) == ((old(b).tape.ok@)(u) && round_on(
                    *cfg,
                    *data,
                    ch,
                    end,
                    *l,
                    u,
                    i as nat,
                ))
            &&& round_kept(k1@, folds@, points@, *cfg, *data, ch, end, *l, i as nat)
            &&& paths_shaped(*cfg, *data, ch, i as nat)
        },
{
    let n = cfg.transcript.rounds.len();
    let ghost idx = verify::positions(*cfg, ch, i as nat);
    let ghost digest = verify::root_before(*data, i as nat);
    let ghost o = verify::opening(*cfg, *data, i as nat);
    proof {
        lemma_ranges(*cfg, *data, *l, ch, end);
        lemma_seen(*cfg, *data, *l, ch, end);
        lemma_samples(end, k, end.seen);
        if i < n {
            assert(round_placed(
                l.rounds@[i as int],
                cfg.transcript.rounds@[i as int],
                data.transcript.rounds@[i as int],
                ch.rounds[i as int],
                end.seen,
                end.drawn,
            ));
            assert(log::workless(cfg.transcript.rounds@[i as int]));
        }
        if i > 0 {
            assert(round_seen(
                l.rounds@[i - 1],
                data.transcript.rounds@[i - 1],
                ch.rounds[i - 1],
                end.seen.len(),
            ));
        }
        assert(digest.len() >= 8);
    }
    let draws: &Vec<u128> = if i < n {
        &l.rounds[i].k_draws
    } else {
        &l.k_final_draws
    };
    let bits: usize = if i < n {
        cfg.transcript.rounds[i].domain_bits
    } else {
        cfg.transcript.final_domain_bits
    };
    let num: usize = if i < n {
        cfg.transcript.rounds[i].num_queries
    } else {
        cfg.transcript.final_queries
    };
    let gen: u32 = if i < n {
        cfg.rounds[i].folded_domain_gen
    } else {
        cfg.final_folded_domain_gen
    };
    let root: u128 = if i == 0 {
        l.root
    } else {
        l.rounds[i - 1].root
    };
    let fold: &Vec<u128> = if i == 0 {
        &l.k_initial_fold
    } else {
        &l.rounds[i - 1].k_fold
    };
    let opening: &verify::Opening = if i < n {
        &data.round_openings[i]
    } else {
        &data.final_opening
    };
    let ghost lo = first_of(draws@);
    let ghost vals = index_vals(*cfg, *l, end, k, i as nat);
    proof {
        assert(layout::draws_stand(end.drawn, draws@, bits as nat, num as nat, idx));
        assert forall|e: int| 0 <= e < b.samples@.len() implies stir::natural(#[trigger] k[e]) by {
            assert forall|u: Seq<int>| 0 <= #[trigger] k[e](u) by {
                lemma_samples(end, k, u);
                assert(at(k, u)[e] == reading::samples(end, u)[e]);
            }
        }
    }
    let (queries, Ghost(k1)) = b.query_draws(draws.as_slice(), bits, num, Ghost(k), Ghost(lo));
    let ghost drawn_ok = b.tape.ok@;
    let ghost before = b.words();
    let starts = match b.append_opening(
        opening,
        queries.as_slice(),
        bits,
        Ghost(k1),
        Ghost(idx),
        Ghost(vals),
    ) {
        Ok(starts) => starts,
        Err(e) => {
            return Err(e);
        },
    };
    let ghost point = symbols::picked(k, fold@);
    let ghost len = row_len(*cfg, *data, i as nat);
    let ghost count = row_count(*cfg, *data, i as nat);
    proof {
        assert(laid_before(*cfg, *data, ch, (i + 1) as nat)) by {
            assert forall|j: nat| j < i + 1 implies #[trigger] laid_round(*cfg, *data, ch, j) by {
                if j < i {
                    assert(laid_round(*cfg, *data, ch, j));
                }
            }
        }
        assert(laid_before(*cfg, *data, ch, i as nat + 1));
        assert(idx.len() > 0);
        lemma_row_len(*cfg, *data, i as nat, verify::folding_before(ch, i as nat).len());
        reading::lemma_picked(k, fold@, end.seen);
        symbols::lemma_stand(k, k1, fold@, point);
        assert(before.len() == end.seen.len() + words_before(*cfg, *data, ch, i as nat).len());
        assert(log::prefix(end.seen, b.words()));
        assert(b.words().len() == b.tape.data@.len());
        assert forall|q: int| 0 <= q < starts@.len() implies #[trigger] starts@[q] == row_place(
            *cfg,
            *data,
            ch,
            end,
            i as nat,
            q,
        ) && starts@[q] + 8 * bits + len <= b.tape.data@.len() by {
            assert(stir::row_laid(
                b.words(),
                starts@[q] as int,
                verify::siblings(*opening, idx, bits as nat, q),
                permutation::ints(opening.rows@[q]@),
                bits as nat,
            ));
            assert(opening.rows@[q]@.len() == len);
        }
        assert forall|q: int| 0 <= q < vals.len() implies stir::natural(#[trigger] vals[q]) by {
            assert forall|u: Seq<int>| 0 <= #[trigger] vals[q](u) by {
                lemma_indices(*cfg, *l, end, k, i as nat, u);
            }
        }
        assert(fold@.len() == verify::folding_before(ch, i as nat).len());
    }
    proof {
        assert forall|q: int| 0 <= q < idx.len() implies path_shaped(
            #[trigger] verify::siblings(o, idx, bits as nat, q),
            bits as nat,
        ) by {
            assert(stir::row_laid(
                b.words(),
                starts@[q] as int,
                verify::siblings(*opening, idx, bits as nat, q),
                permutation::ints(opening.rows@[q]@),
                bits as nat,
            ));
        }
        assert(paths_shaped(*cfg, *data, ch, i as nat));
    }
    let (folds, points, Ghost(k2)) = b.stir(
        opening,
        queries.as_slice(),
        starts.as_slice(),
        root,
        bits,
        fold.as_slice(),
        gen,
        Ghost(k1),
        Ghost(idx),
        Ghost(vals),
        Ghost(point),
        Ghost(len),
        Ghost(count),
    );
    proof {
        assert forall|u: Seq<int>| #[trigger] (b.tape.ok@)(u) == ((old(b).tape.ok@)(u) && round_on(
            *cfg,
            *data,
            ch,
            end,
            *l,
            u,
            i as nat,
        )) by {
            lemma_round_on(starts@, k, *cfg, *data, ch, end, *l, i as nat, u);
            assert(drawn_ok(u) == ((old(b).tape.ok@)(u) && reading::alike(
                k,
                end.drawn,
                bits as nat,
                num as nat,
                lo,
                lo + draws@.len(),
            )(u)));
        }
        lemma_round_kept(
            k2,
            k,
            folds@,
            points@,
            starts@,
            *cfg,
            *data,
            ch,
            end,
            *l,
            i as nat,
        );
        assert(b.words() =~= end.seen + words_before(*cfg, *data, ch, (i + 1) as nat));
    }
    Ok((folds, points, Ghost(k2)))
}

/// One intermediate round: its opening, the combination and the round's sumcheck.
#[verifier::rlimit(40)]
fn run_round(
    b: &mut Builder,
    l: &Layout,
    cfg: &VerifyConfig,
    data: &VerifyData,
    i: usize,
    claim: u128,
    Ghost(ch): Ghost<Draws>,
    Ghost(end): Ghost<Duplex>,
    Ghost(k): Ghost<Seq<Val>>,
) -> (r: Result<(u128, Vec<u128>, Ghost<Seq<Val>>), Error>)
    requires
        ready(*old(b), *l, *cfg, *data, ch, end, k),
        measured_draws(*cfg, *data, ch),
        buildable(*cfg, *data, ch),
        i < verify::last(*cfg),
        laid_before(*cfg, *data, ch, i as nat),
        old(b).words() == end.seen + words_before(*cfg, *data, ch, i as nat),
        claim_kept(k, claim, *cfg, *data, ch, end, *l, i as nat),
    ensures
        r is Ok <==> laid_round(*cfg, *data, ch, i as nat),
        r matches Err(e) ==> e == round_refusal(*cfg, *data, ch, i as nat),
        r matches Ok((next, points, k1)) ==> {
            &&& ready(*final(b), *l, *cfg, *data, ch, end, k1@)
            &&& final(b).words() == end.seen + words_before(*cfg, *data, ch, (i + 1) as nat)
            &&& prefix(k, k1@)
            &&& final(b).census() == script::together(
                old(b).census(),
                round_work(*cfg, *data, ch, i as nat),
            )
            &&& forall|u: Seq<int>| #[trigger]
                (final(b).tape.ok@)(u) == ((old(b).tape.ok@)(u) && round_on(
                    *cfg,
                    *data,
                    ch,
                    end,
                    *l,
                    u,
                    i as nat,
                ))
            &&& claim_kept(k1@, next, *cfg, *data, ch, end, *l, (i + 1) as nat)
            &&& points_on(k1@, points@, *cfg, *l, end, i as nat)
            &&& paths_shaped(*cfg, *data, ch, i as nat)
        },
{
    let (folds, points, Ghost(k1)) = match open_round(
        b,
        l,
        cfg,
        data,
        i,
        Ghost(ch),
        Ghost(end),
        Ghost(k),
    ) {
        Ok(r) => r,
        Err(e) => {
            return Err(e);
        },
    };
    let rl = &l.rounds[i];
    let ghost n = b.tape.data@.len();
    let ghost answers = symbols::picked(b.stream(), rl.ood_answers@);
    let ghost folded = symbols::picked(k1, folds@);
    proof {
        lemma_ranges(*cfg, *data, *l, ch, end);
        lemma_seen(*cfg, *data, *l, ch, end);
        lemma_samples(end, k1, end.seen);
        lemma_claim_kept(k, k1, claim, *cfg, *data, ch, end, *l, i as nat);
        assert(round_seen(
            l.rounds@[i as int],
            data.transcript.rounds@[i as int],
            ch.rounds[i as int],
            end.seen.len(),
        ));
        assert(in_range(l.rounds@[i as int].k_ood@, end.drawn.len()));
        assert(in_range(l.rounds@[i as int].k_fold@, end.drawn.len()));
        assert(b.words().len() == n);
        lemma_stream(n, rl.ood_answers@, end.seen);
        reading::lemma_picked(k1, folds@, end.seen);
        assert(verify::positions(*cfg, ch, i as nat).len() > 0);
    }
    let mid = b.combine(
        claim,
        rl.k_combination,
        rl.ood_answers.as_slice(),
        folds.as_slice(),
        Ghost(k1),
        Ghost(answers),
        Ghost(folded),
    );
    let ghost v = symbols::weighted(
        quad_at(k1, claim as int),
        quad_at(k1, rl.k_combination as int),
        1,
        answers + folded,
    );
    let ghost k2 = k1 + sp(v);
    let ghost polys = symbols::picked_pairs(b.stream(), rl.sumcheck@);
    let ghost rs = symbols::picked(k2, rl.k_fold@);
    proof {
        lemma_appended(k1, v);
        lemma_stream_pairs(n, rl.sumcheck@, end.seen);
        reading::lemma_picked(k2, rl.k_fold@, end.seen);
        assert(ch.rounds[i as int].folding.len()
            == data.transcript.rounds@[i as int].sumcheck@.len());
    }
    let (next, Ghost(k3)) = b.sumcheck_rounds(
        mid,
        rl.sumcheck.as_slice(),
        rl.k_fold.as_slice(),
        Ghost(k2),
        Ghost(v),
        Ghost(polys),
        Ghost(rs),
    );
    proof {
        assert(prefix(k1, k3));
        lemma_points_kept(k1, k3, points@, *cfg, *l, end, i as nat);
        assert forall|u: Seq<int>| #[trigger] quad_at(k3, next as int).at(u) == claim_on(
            *cfg,
            *data,
            ch,
            end,
            *l,
            u,
            (i + 1) as nat,
        ) by {
            let s = reading::samples(end, u);
            lemma_samples(end, k1, u);
            lemma_samples(end, k2, u);
            lemma_stream(n, rl.ood_answers@, u);
            reading::lemma_picked(k1, folds@, u);
            assert(reading::quads(at(k1, u), folds@) == folds_on(
                *cfg,
                *data,
                ch,
                end,
                *l,
                u,
                i as nat,
            ));
            assert(ats(answers + folded, u) =~= ats(answers, u) + ats(folded, u));
            assert(quad_at(k1, claim as int).at(u) == claim_on(
                *cfg,
                *data,
                ch,
                end,
                *l,
                u,
                i as nat,
            ));
            assert(quad_at(k1, rl.k_combination as int).at(u) == script::quad_at(
                s,
                rl.k_combination as int,
            ));
            lemma_sumcheck(v, n, rl.sumcheck@, k2, rl.k_fold@, u);
            reading::lemma_same_quads(s, at(k2, u), rl.k_fold@);
        }
    }
    Ok((next, points, Ghost(k3)))
}

/// The intermediate rounds.
fn run_rounds(
    b: &mut Builder,
    l: &Layout,
    cfg: &VerifyConfig,
    data: &VerifyData,
    claim: u128,
    Ghost(ch): Ghost<Draws>,
    Ghost(end): Ghost<Duplex>,
    Ghost(k): Ghost<Seq<Val>>,
) -> (r: Result<(u128, Vec<Vec<u128>>, Ghost<Seq<Val>>), Error>)
    requires
        ready(*old(b), *l, *cfg, *data, ch, end, k),
        measured_draws(*cfg, *data, ch),
        buildable(*cfg, *data, ch),
        old(b).words() == end.seen,
        claim_kept(k, claim, *cfg, *data, ch, end, *l, 0),
    ensures
        r is Ok <==> laid_before(*cfg, *data, ch, verify::last(*cfg)),
        r matches Err(e) ==> exists|i: nat|
            {
                &&& i < verify::last(*cfg)
                &&& laid_before(*cfg, *data, ch, i)
                &&& !#[trigger] laid_round(*cfg, *data, ch, i)
                &&& e == round_refusal(*cfg, *data, ch, i)
            },
        r matches Ok((next, points, k1)) ==> {
            &&& ready(*final(b), *l, *cfg, *data, ch, end, k1@)
            &&& final(b).words() == end.seen + words_before(
                *cfg,
                *data,
                ch,
                verify::last(*cfg),
            )
            &&& forall|u: Seq<int>| #[trigger]
                (final(b).tape.ok@)(u) == ((old(b).tape.ok@)(u) && rounds_on(
                    *cfg,
                    *data,
                    ch,
                    end,
                    *l,
                    u,
                    verify::last(*cfg),
                ))
            &&& final(b).census() == script::together(
                old(b).census(),
                rounds_work(*cfg, *data, ch, verify::last(*cfg)),
            )
            &&& claim_kept(k1@, next, *cfg, *data, ch, end, *l, verify::last(*cfg))
            &&& all_shaped(*cfg, *data, ch, verify::last(*cfg))
            &&& points@.len() == verify::last(*cfg)
            &&& forall|i: int|
                0 <= i < points@.len() ==> #[trigger] points_on(
                    k1@,
                    points@[i]@,
                    *cfg,
                    *l,
                    end,
                    i as nat,
                )
        },
{
    let mut cur = claim;
    assert(end.seen + words_before(*cfg, *data, ch, 0) =~= end.seen);
    let mut points: Vec<Vec<u128>> = Vec::new();
    let ghost mut kk = k;
    let n = cfg.transcript.rounds.len();
    while points.len() < n
        invariant
            n == verify::last(*cfg),
            points@.len() <= n,
            ready(*b, *l, *cfg, *data, ch, end, kk),
            measured_draws(*cfg, *data, ch),
            buildable(*cfg, *data, ch),
            laid_before(*cfg, *data, ch, points@.len()),
            all_shaped(*cfg, *data, ch, points@.len()),
            claim_kept(kk, cur, *cfg, *data, ch, end, *l, points@.len()),
            forall|u: Seq<int>| #[trigger]
                (b.tape.ok@)(u) == ((old(b).tape.ok@)(u) && rounds_on(
                    *cfg,
                    *data,
                    ch,
                    end,
                    *l,
                    u,
                    points@.len(),
                )),
            b.words() == end.seen + words_before(*cfg, *data, ch, points@.len()),
            b.census() == script::together(
                old(b).census(),
                rounds_work(*cfg, *data, ch, points@.len()),
            ),
            forall|i: int|
                0 <= i < points@.len() ==> #[trigger] points_on(
                    kk,
                    points@[i]@,
                    *cfg,
                    *l,
                    end,
                    i as nat,
                ),
        decreases n - points@.len(),
    {
        let i = points.len();
        let ghost passed = b.tape.ok@;
        match run_round(b, l, cfg, data, i, cur, Ghost(ch), Ghost(end), Ghost(kk)) {
            Ok((next, zs, k_next)) => {
                let ghost k1 = k_next@;
                let ghost before = points@;
                points.push(zs);
                cur = next;
                proof {
                    assert forall|j: int| 0 <= j < points@.len() implies #[trigger] points_on(
                        k1,
                        points@[j]@,
                        *cfg,
                        *l,
                        end,
                        j as nat,
                    ) by {
                        if j < i {
                            assert(points_on(kk, before[j]@, *cfg, *l, end, j as nat));
                            lemma_points_kept(kk, k1, before[j]@, *cfg, *l, end, j as nat);
                            assert(points@[j] == before[j]);
                        } else {
                            assert(points@[j] == zs);
                        }
                    }
                    kk = k1;
                    lemma_one_more(*cfg, *data, ch, i as nat);
                    assert forall|u: Seq<int>| #[trigger] (b.tape.ok@)(u) == ((old(b).tape.ok@)(u)
                        && rounds_on(*cfg, *data, ch, end, *l, u, (i + 1) as nat)) by {
                        assert(passed(u) == ((old(b).tape.ok@)(u) && rounds_on(
                            *cfg,
                            *data,
                            ch,
                            end,
                            *l,
                            u,
                            i as nat,
                        )));
                        lemma_round_more(*cfg, *data, ch, end, *l, u, i as nat);
                    }
                }
            },
            Err(e) => {
                assert(!laid_round(*cfg, *data, ch, i as nat));
                return Err(e);
            },
        }
    }
    Ok((cur, points, Ghost(kk)))
}

/// One round more on other data.
proof fn lemma_round_more(
    cfg: VerifyConfig,
    data: VerifyData,
    ch: Draws,
    end: Duplex,
    l: Layout,
    u: Seq<int>,
    i: nat,
)
    ensures
        rounds_on(cfg, data, ch, end, l, u, i + 1) == (rounds_on(cfg, data, ch, end, l, u, i)
            && round_on(cfg, data, ch, end, l, u, i)),
{
    if rounds_on(cfg, data, ch, end, l, u, i) && round_on(cfg, data, ch, end, l, u, i) {
        assert forall|j: nat| j < i + 1 implies #[trigger] round_on(cfg, data, ch, end, l, u, j) by {
            if j < i {
                assert(round_on(cfg, data, ch, end, l, u, j));
            }
        }
    }
    if rounds_on(cfg, data, ch, end, l, u, i + 1) {
        assert(round_on(cfg, data, ch, end, l, u, i));
    }
}

/// One round more.
proof fn lemma_one_more(cfg: VerifyConfig, data: VerifyData, ch: Draws, i: nat)
    ensures
        laid_before(cfg, data, ch, i + 1) == (laid_before(cfg, data, ch, i) && laid_round(
            cfg,
            data,
            ch,
            i,
        )),
        all_reach(cfg, data, ch, i + 1) == (all_reach(cfg, data, ch, i) && round_reaches(
            cfg,
            data,
            ch,
            i,
        )),
{
    if laid_before(cfg, data, ch, i) && laid_round(cfg, data, ch, i) {
        assert forall|j: nat| j < i + 1 implies #[trigger] laid_round(cfg, data, ch, j) by {
            if j < i {
                assert(laid_round(cfg, data, ch, j));
            }
        }
    }
    if all_reach(cfg, data, ch, i) && round_reaches(cfg, data, ch, i) {
        assert forall|j: nat| j < i + 1 implies #[trigger] round_reaches(cfg, data, ch, j) by {
            if j < i {
                assert(round_reaches(cfg, data, ch, j));
            }
        }
    }
    if laid_before(cfg, data, ch, i + 1) {
        assert(laid_round(cfg, data, ch, i));
    }
    if all_reach(cfg, data, ch, i + 1) {
        assert(round_reaches(cfg, data, ch, i));
    }
}

/// The kept fold is the final polynomial at the kept point.
pub open spec fn fold_checks(at: int, count: nat, fold: Sym, z: Val) -> Cond {
    symbols::same(
        symbols::nested(symbols::lifted(z), reading::row_syms(true, at, count)),
        fold,
    )
}

/// A fold must be the final polynomial at its point.
fn check_fold(
    b: &mut Builder,
    final_poly: u128,
    count: usize,
    fold: u128,
    z: u128,
    Ghost(k): Ghost<Seq<Val>>,
)
    requires
        old(b).holds(k, none(), none()),
        final_poly + 4 * count <= old(b).tape.data@.len(),
        count > 0,
        fold + 4 <= k.len(),
        z < k.len(),
    ensures
        final(b).holds(k, none(), none()),
        final(b).tape.data@ == old(b).tape.data@,
        final(b).samples@ == old(b).samples@,
        final(b).census() == old(b).census(),
        final(b).tape.ok@ == both(
            old(b).tape.ok@,
            fold_checks(
                final_poly as int,
                count as nat,
                quad_at(k, fold as int),
                k[z as int],
            ),
        ),
{
    let ghost s = b.stream();
    let ghost x = k[z as int];
    let ghost chi = symbols::lifted(x);
    let ghost coeffs = reading::row_syms(true, final_poly as int, count as nat);
    assert(b.tape.data.len() == b.tape.data@.len());
    let mut j = count - 1;
    proof {
        stir::lemma_element(s.len(), final_poly + 4 * j);
    }
    b.push_data_ef(final_poly + 4 * (j as u128), Ghost(k), Ghost(none()), Ghost(none()));
    assert(coeffs.skip(j as int)[0] == coeffs[j as int]);
    while j > 0
        invariant
            j < count,
            count == coeffs.len(),
            coeffs == reading::row_syms(true, final_poly as int, count as nat),
            s == b.stream(),
            s.len() <= usize::MAX,
            final_poly + 4 * count <= s.len(),
            x == k[z as int],
            chi == symbols::lifted(x),
            z < k.len(),
            b.holds(k, none() + sp(symbols::nested(chi, coeffs.skip(j as int))), none()),
            b.same(old(b)),
        decreases j,
    {
        let ghost h = symbols::nested(chi, coeffs.skip(j as int));
        b.push_kept(z, 1, Ghost(k), Ghost(none() + sp(h)), Ghost(none()));
        assert(k.subrange(z as int, z + 1) =~= seq![x]);
        b.ef_mul_base(Ghost(k), Ghost(none()), Ghost(h), Ghost(x), Ghost(none()));
        let ghost y = symbols::times(h, chi);
        j = j - 1;
        proof {
            stir::lemma_element(s.len(), final_poly + 4 * j);
        }
        b.push_data_ef(
            final_poly + 4 * (j as u128),
            Ghost(k),
            Ghost(none() + sp(y)),
            Ghost(none()),
        );
        b.ef_add(Ghost(k), Ghost(none()), Ghost(y), Ghost(coeffs[j as int]), Ghost(none()));
        proof {
            assert(coeffs.skip(j as int).drop_first() =~= coeffs.skip(j + 1));
            assert(coeffs.skip(j as int)[0] == coeffs[j as int]);
        }
    }
    let ghost h = symbols::nested(chi, coeffs);
    assert(coeffs.skip(0) =~= coeffs);
    b.push_kept_ef(fold, Ghost(k), Ghost(none() + sp(h)), Ghost(none()));
    b.equal_verify_ef(
        Ghost(k),
        Ghost(none()),
        Ghost(h),
        Ghost(quad_at(k, fold as int)),
        Ghost(none()),
    );
}

/// Every fold of the final opening must be the final polynomial at its point.
fn check_folds(
    b: &mut Builder,
    l: &Layout,
    cfg: &VerifyConfig,
    data: &VerifyData,
    folds: &Vec<u128>,
    points: &Vec<u128>,
    Ghost(ch): Ghost<Draws>,
    Ghost(end): Ghost<Duplex>,
    Ghost(k): Ghost<Seq<Val>>,
)
    requires
        ready(*old(b), *l, *cfg, *data, ch, end, k),
        data.transcript.final_poly@.len() > 0,
        round_kept(k, folds@, points@, *cfg, *data, ch, end, *l, verify::last(*cfg)),
    ensures
        ready(*final(b), *l, *cfg, *data, ch, end, k),
        final(b).tape.data@ == old(b).tape.data@,
        final(b).census() == old(b).census(),
        forall|u: Seq<int>| #[trigger]
            (final(b).tape.ok@)(u) == ((old(b).tape.ok@)(u) && all_agree_on(
                *cfg,
                *data,
                ch,
                end,
                *l,
                u,
            )),
{
    let count = data.transcript.final_poly.len();
    let ghost last = verify::last(*cfg);
    let ghost first = b.tape.ok@;
    proof {
        lemma_seen(*cfg, *data, *l, ch, end);
        assert(b.words().len() == b.tape.data@.len());
    }
    let mut q: usize = 0;
    while q < folds.len()
        invariant
            q <= folds@.len(),
            last == verify::last(*cfg),
            count == data.transcript.final_poly@.len(),
            count > 0,
            l.final_poly + 4 * count <= b.tape.data@.len(),
            ready(*b, *l, *cfg, *data, ch, end, k),
            round_kept(k, folds@, points@, *cfg, *data, ch, end, *l, last),
            b.tape.data@ == old(b).tape.data@,
            b.census() == old(b).census(),
            forall|u: Seq<int>| #[trigger]
                (b.tape.ok@)(u) == (first(u) && forall|j: int|
                    0 <= j < q ==> #[trigger] agrees_on(*cfg, *data, ch, end, *l, u, j)),
        decreases folds@.len() - q,
    {
        let ghost passed = b.tape.ok@;
        proof {
            assert(folds@[q as int] + 4 <= k.len());
            assert(points@[q as int] < k.len());
        }
        check_fold(b, l.final_poly, count, folds[q], points[q], Ghost(k));
        q = q + 1;
        proof {
            assert forall|u: Seq<int>| #[trigger] (b.tape.ok@)(u) == (first(u) && forall|j: int|
                0 <= j < q ==> #[trigger] agrees_on(*cfg, *data, ch, end, *l, u, j)) by {
                let j = q - 1;
                let fold = quad_at(k, folds@[j] as int);
                let z = k[points@[j] as int];
                let coeffs = reading::row_syms(true, l.final_poly as int, count as nat);
                assert((b.tape.ok@)(u) == (passed(u) && fold_checks(
                    l.final_poly as int,
                    count as nat,
                    fold,
                    z,
                )(u)));
                symbols::lemma_nested(symbols::lifted(z), coeffs, u);
                reading::lemma_row(true, l.final_poly as int, count as nat, u);
                assert(symbols::lifted(z).at(u) == ext4::lifted(z(u)));
                lemma_points_on(k, points@, *cfg, *l, end, last, u);
                assert(reading::bases(at(k, u), points@)[j] == z(u));
                assert(reading::quads(at(k, u), folds@) == folds_on(
                    *cfg,
                    *data,
                    ch,
                    end,
                    *l,
                    u,
                    last,
                ));
                assert(reading::quads(at(k, u), folds@)[j] == fold.at(u));
                assert(agrees_on(*cfg, *data, ch, end, *l, u, j) == fold_checks(
                    l.final_poly as int,
                    count as nat,
                    fold,
                    z,
                )(u));
                if passed(u) && agrees_on(*cfg, *data, ch, end, *l, u, j) {
                    assert forall|i: int| 0 <= i < q implies #[trigger] agrees_on(
                        *cfg,
                        *data,
                        ch,
                        end,
                        *l,
                        u,
                        i,
                    ) by {
                        if i < j {
                            assert(agrees_on(*cfg, *data, ch, end, *l, u, i));
                        }
                    }
                }
            }
        }
    }
}

/// The pushes of the data, deepest first.
pub open spec fn pushes(data: Seq<u32>) -> Seq<Op> {
    Seq::new(data.len(), |i: int| Op::Push(data[data.len() - 1 - i]))
}

/// Pushing the first elements of `pushes` leaves the deepest of the data.
proof fn lemma_pushes(data: Seq<u32>, j: nat)
    requires
        j <= data.len(),
    ensures
        script::run(pushes(data).take(j as int), empty_machine()) == script::Outcome::Running(
            Machine {
                main: tape::below(permutation::ints(data), data.len()).take(j as int),
                alt: Seq::empty(),
            },
        ),
    decreases j,
{
    let all = tape::below(permutation::ints(data), data.len());
    let ops = pushes(data);
    let empty = Seq::<int>::empty();
    if j == 0 {
        assert(ops.take(0) =~= Seq::<Op>::empty());
        assert(all.take(0) =~= empty);
    } else {
        let i = (j - 1) as nat;
        lemma_pushes(data, i);
        let v = data[data.len() - 1 - i];
        let before = all.take(i as int);
        assert(ops.take(j as int) =~= ops.take(i as int).push(Op::Push(v)));
        script::lemma_run_push(ops.take(i as int), Op::Push(v), empty_machine());
        reveal(script::effect);
        script::lemma_step(Op::Push(v), before, empty, empty, empty);
        assert(before + empty =~= before);
        assert(empty + empty =~= empty);
        assert(before + seq![v as int] =~= all.take(j as int));
    }
}

/// A program over pushed data runs on the data.
proof fn lemma_run_on(data: Seq<u32>, ops: Seq<Op>)
    ensures
        script::run(pushes(data) + ops, empty_machine()) == script::run(
            ops,
            tape::start(permutation::ints(data), data.len()),
        ),
{
    let all = tape::below(permutation::ints(data), data.len());
    lemma_pushes(data, data.len());
    assert(pushes(data).take(data.len() as int) =~= pushes(data));
    assert(all.take(data.len() as int) =~= all);
    script::law_run_append(pushes(data), ops, empty_machine());
}

/// The data, deepest first, then the program.
fn assemble(data: &Vec<u32>, ops: &Vec<Op>) -> (r: Script)
    ensures
        r@ == pushes(data@) + ops@,
        script::census(r@) == script::census(ops@),
{
    let mut r: Script = Vec::new();
    let mut i = data.len();
    let ghost all = pushes(data@);
    proof {
        reveal(script::census);
        assert(all.take(0) =~= Seq::<Op>::empty());
    }
    while i > 0
        invariant
            i <= data@.len(),
            all == pushes(data@),
            script::census(r@) == script::folded(0),
            r@ == all.take(data@.len() - i),
        decreases i,
    {
        i = i - 1;
        r.push(Op::Push(data[i]));
        assert(r@ =~= all.take(data@.len() - i));
    }
    let ghost first = r@;
    assert(all.take(data@.len() as int) =~= all);
    let mut j: usize = 0;
    proof {
        assert(first + ops@.take(0) =~= first);
        assert(ops@.take(0) =~= Seq::<Op>::empty());
        reveal(script::census);
    }
    while j < ops.len()
        invariant
            j <= ops@.len(),
            r@ == first + ops@.take(j as int),
            script::census(r@) == script::census(ops@.take(j as int)),
        decreases ops@.len() - j,
    {
        r.push(ops[j]);
        j = j + 1;
        assert(r@ =~= first + ops@.take(j as int));
        assert(ops@.take(j as int) =~= ops@.take(j - 1).push(ops@[j - 1]));
    }
    assert(ops@.take(j as int) =~= ops@);
    r
}

/// The machine a script starts on.
pub open spec fn empty_machine() -> Machine {
    Machine { main: Seq::empty(), alt: Seq::empty() }
}

/// The draws, measured.
proof fn lemma_measured(cfg: VerifyConfig, data: VerifyData)
    requires
        reference::fits(cfg.transcript, data.transcript),
        ({
            let t = cfg.transcript;
            &&& forall|i: int|
                0 <= i < t.rounds@.len() ==> (#[trigger] t.rounds@[i]).num_queries > 0
            &&& t.final_queries > 0
        }),
    ensures
        measured_draws(
            cfg,
            data,
            reference::run(cfg.transcript, data.transcript, sponge::fresh()).1,
        ),
{
    let d = sponge::fresh();
    assert(sponge::wf(d)) by {
        assert(d.output =~= d.state.take(0));
    }
    let ch = reference::run(cfg.transcript, data.transcript, d).1;
    verify::lemma_draw_lengths(cfg.transcript, data.transcript, d);
    let n = verify::last(cfg);
    assert forall|i: nat, q: int|
        i <= n && 0 <= q < verify::positions(cfg, ch, i).len() implies 0
        <= #[trigger] verify::positions(cfg, ch, i)[q] < pow2(verify::depth(cfg, i)) by {
        if i < n {
            assert(ch.rounds[i as int].queries[q] >= 0);
        } else {
            assert(ch.final_queries[q] >= 0);
        }
    }
    assert forall|i: nat| i <= n implies (#[trigger] verify::positions(cfg, ch, i)).len() > 0 by {
        lemma_pow2_pos(verify::depth(cfg, i));
        if i < n {
            assert(ch.rounds[i as int].folding.len() == data.transcript.rounds@[i as int].sumcheck@.len());
            assert(cfg.transcript.rounds@[i as int].num_queries > 0);
        }
    }
}

/// The final sumcheck, the weights and the closing identity.
#[verifier::rlimit(40)]
fn conclude(
    b: &mut Builder,
    l: &Layout,
    cfg: &VerifyConfig,
    data: &VerifyData,
    claim: u128,
    points: &Vec<Vec<u128>>,
    Ghost(ch): Ghost<Draws>,
    Ghost(end): Ghost<Duplex>,
    Ghost(k): Ghost<Seq<Val>>,
)
    requires
        ready(*old(b), *l, *cfg, *data, ch, end, k),
        measured_draws(*cfg, *data, ch),
        buildable(*cfg, *data, ch),
        verify::closes_fit(*cfg, *data, ch),
        claim_kept(k, claim, *cfg, *data, ch, end, *l, verify::last(*cfg)),
        points@.len() == verify::last(*cfg),
        forall|i: int|
            0 <= i < points@.len() ==> #[trigger] points_on(
                k,
                points@[i]@,
                *cfg,
                *l,
                end,
                i as nat,
            ),
    ensures
        final(b).tape.sound(),
        final(b).tape.data@ == old(b).tape.data@,
        final(b).census() == script::together(
            old(b).census(),
            script::folded(data.transcript.final_sumcheck@.len()),
        ),
        forall|u: Seq<int>| #[trigger]
            (final(b).tape.ok@)(u) == ((old(b).tape.ok@)(u) && closes_on(
                *cfg,
                *data,
                ch,
                end,
                *l,
                u,
            )),
{
    let ghost n = b.tape.data@.len();
    let ghost last = verify::last(*cfg);
    let ghost q = quad_at(k, claim as int);
    let ghost polys = symbols::picked_pairs(b.stream(), l.final_sumcheck@);
    let ghost rs = symbols::picked(k, l.k_final_fold@);
    let ghost first = b.tape.ok@;
    proof {
        lemma_ranges(*cfg, *data, *l, ch, end);
        lemma_seen(*cfg, *data, *l, ch, end);
        lemma_samples(end, k, end.seen);
        assert(b.words().len() == n);
        lemma_stream_pairs(n, l.final_sumcheck@, end.seen);
        reading::lemma_picked(k, l.k_final_fold@, end.seen);
    }
    let (end_claim, Ghost(k1)) = b.sumcheck_rounds(
        claim,
        l.final_sumcheck.as_slice(),
        l.k_final_fold.as_slice(),
        Ghost(k),
        Ghost(q),
        Ghost(polys),
        Ghost(rs),
    );
    proof {
        assert forall|i: int| 0 <= i < points@.len() implies #[trigger] points_on(
            k1,
            points@[i]@,
            *cfg,
            *l,
            end,
            i as nat,
        ) by {
            assert(points_on(k, points@[i]@, *cfg, *l, end, i as nat));
            lemma_points_kept(k, k1, points@[i]@, *cfg, *l, end, i as nat);
        }
    }
    let Ghost(total) = weights::push_total(
        b,
        l,
        cfg,
        data,
        points,
        Ghost(ch),
        Ghost(end),
        Ghost(k1),
    );
    let count = data.transcript.final_poly.len();
    weights::close(b, l, count, end_claim, Ghost(total), Ghost(k1));
    proof {
        let c = quad_at(k1, end_claim as int);
        let coeffs = reading::row_syms(true, l.final_poly as int, count as nat);
        let point = symbols::picked(k1, l.k_final_fold@);
        assert forall|u: Seq<int>| #[trigger] (b.tape.ok@)(u) == (first(u) && closes_on(
            *cfg,
            *data,
            ch,
            end,
            *l,
            u,
        )) by {
            let s = reading::samples(end, u);
            lemma_samples(end, k, u);
            lemma_samples(end, k1, u);
            lemma_sumcheck(q, n, l.final_sumcheck@, k, l.k_final_fold@, u);
            reading::lemma_same_quads(s, at(k, u), l.k_final_fold@);
            reading::lemma_same_quads(s, at(k1, u), l.k_final_fold@);
            reading::lemma_picked(k1, l.k_final_fold@, u);
            reading::lemma_row(true, l.final_poly as int, count as nat, u);
            assert(q.at(u) == claim_on(*cfg, *data, ch, end, *l, u, last));
            assert(total.at(u) == verify::final_weight(*cfg, challenges(*cfg, *l, end, u)));
            let right = symbols::times(total, symbols::multilinear(coeffs, point));
            assert((b.tape.ok@)(u) == (first(u) && right.at(u) == c.at(u)));
            assert(right.at(u) == ext4::times(
                total.at(u),
                model::multilinear(ats(coeffs, u), ats(point, u)),
            ));
        }
    }
}

/// Everything after the transcript.
#[verifier::rlimit(40)]
fn finish(
    b: &mut Builder,
    l: &Layout,
    cfg: &VerifyConfig,
    data: &VerifyData,
    Ghost(ch): Ghost<Draws>,
    Ghost(end): Ghost<Duplex>,
) -> (r: Result<(), Error>)
    requires
        ready(
            *old(b),
            *l,
            *cfg,
            *data,
            ch,
            end,
            symbols::drawn(end.calls, end.drawn.len()),
        ),
        old(b).tape.ok@ == symbols::always(),
        old(b).words() == end.seen,
        measured_draws(*cfg, *data, ch),
        buildable(*cfg, *data, ch),
    ensures
        r is Ok <==> laid_before(*cfg, *data, ch, (verify::last(*cfg) + 1) as nat),
        r matches Err(e) ==> exists|i: nat|
            {
                &&& i < verify::last(*cfg) + 1
                &&& laid_before(*cfg, *data, ch, i)
                &&& !#[trigger] laid_round(*cfg, *data, ch, i)
                &&& e == round_refusal(*cfg, *data, ch, i)
            },
        r is Ok ==> {
            &&& final(b).tape.sound()
            &&& all_shaped(*cfg, *data, ch, (verify::last(*cfg) + 1) as nat)
            &&& forall|u: Seq<int>| #[trigger]
                (final(b).tape.ok@)(u) == passes_on(*cfg, *data, ch, end, *l, u)
            &&& final(b).census() == script::together(
                old(b).census(),
                arithmetic_work(*cfg, *data, ch),
            )
            &&& final(b).words() == end.seen + words_before(
                *cfg,
                *data,
                ch,
                (verify::last(*cfg) + 1) as nat,
            )
        },
{
    let ghost n = verify::last(*cfg);
    let ghost k0 = symbols::drawn(end.calls, end.drawn.len());
    let (first, Ghost(k1)) = open_claim(
        b,
        l,
        Ghost(*cfg),
        Ghost(*data),
        Ghost(ch),
        Ghost(end),
        Ghost(k0),
    );
    let (claim, points, Ghost(k2)) = match run_rounds(
        b,
        l,
        cfg,
        data,
        first,
        Ghost(ch),
        Ghost(end),
        Ghost(k1),
    ) {
        Ok(r) => r,
        Err(e) => {
            proof {
                let i = choose|i: nat|
                    {
                        &&& i < n
                        &&& laid_before(*cfg, *data, ch, i)
                        &&& !#[trigger] laid_round(*cfg, *data, ch, i)
                        &&& e == round_refusal(*cfg, *data, ch, i)
                    };
                assert(!laid_round(*cfg, *data, ch, i));
            }
            return Err(e);
        },
    };
    let ghost ok1 = b.tape.ok@;
    let last = cfg.transcript.rounds.len();
    proof {
        lemma_one_more(*cfg, *data, ch, n);
    }
    let (folds, zs, Ghost(k3)) = match open_round(
        b,
        l,
        cfg,
        data,
        last,
        Ghost(ch),
        Ghost(end),
        Ghost(k2),
    ) {
        Ok(r) => r,
        Err(e) => {
            assert(!laid_round(*cfg, *data, ch, n));
            return Err(e);
        },
    };
    proof {
        assert(verify::closes_fit(*cfg, *data, ch));
        lemma_pow2_pos(ch.final_folding.len());
        assert(laid_round(*cfg, *data, ch, n));
        lemma_claim_kept(k2, k3, claim, *cfg, *data, ch, end, *l, n);
        assert forall|i: int| 0 <= i < points@.len() implies #[trigger] points_on(
            k3,
            points@[i]@,
            *cfg,
            *l,
            end,
            i as nat,
        ) by {
            assert(points_on(k2, points@[i]@, *cfg, *l, end, i as nat));
            lemma_points_kept(k2, k3, points@[i]@, *cfg, *l, end, i as nat);
        }
    }
    let ghost ok2 = b.tape.ok@;
    check_folds(b, l, cfg, data, &folds, &zs, Ghost(ch), Ghost(end), Ghost(k3));
    let ghost ok3 = b.tape.ok@;
    conclude(b, l, cfg, data, claim, &points, Ghost(ch), Ghost(end), Ghost(k3));
    proof {
        assert forall|u: Seq<int>| #[trigger] (b.tape.ok@)(u) == passes_on(
            *cfg,
            *data,
            ch,
            end,
            *l,
            u,
        ) by {
            assert(ok1(u) == rounds_on(*cfg, *data, ch, end, *l, u, n));
            assert(ok2(u) == (ok1(u) && round_on(*cfg, *data, ch, end, *l, u, n)));
            assert(ok3(u) == (ok2(u) && all_agree_on(*cfg, *data, ch, end, *l, u)));
            lemma_round_more(*cfg, *data, ch, end, *l, u, n);
        }
    }
    Ok(())
}

// ---------------------------------------------------------------------------
// The script on its own data.
// ---------------------------------------------------------------------------

/// Every sibling on round `i`'s paths is a digest.
pub open spec fn paths_shaped(cfg: VerifyConfig, data: VerifyData, ch: Draws, i: nat) -> bool {
    forall|q: int|
        0 <= q < verify::positions(cfg, ch, i).len() ==> path_shaped(
            #[trigger] verify::siblings(
                verify::opening(cfg, data, i),
                verify::positions(cfg, ch, i),
                verify::depth(cfg, i),
                q,
            ),
            verify::depth(cfg, i),
        )
}

pub open spec fn path_shaped(sibs: Seq<Seq<int>>, depth: nat) -> bool {
    &&& sibs.len() == depth
    &&& forall|l: int| 0 <= l < depth ==> (#[trigger] sibs[l]).len() == 8
}

/// Every round's are.
pub open spec fn all_shaped(cfg: VerifyConfig, data: VerifyData, ch: Draws, k: nat) -> bool {
    forall|i: nat| i < k ==> #[trigger] paths_shaped(cfg, data, ch, i)
}

/// What the openings before a round add stays.
proof fn lemma_words_before(cfg: VerifyConfig, data: VerifyData, ch: Draws, i: nat, n: nat)
    requires
        i <= n,
    ensures
        log::prefix(words_before(cfg, data, ch, i), words_before(cfg, data, ch, n)),
    decreases n,
{
    if i < n {
        lemma_words_before(cfg, data, ch, i, (n - 1) as nat);
    }
}

/// What the first queries of an opening add stays.
proof fn lemma_laid_words(o: verify::Opening, idx: Seq<int>, depth: nat, q: nat, n: nat)
    requires
        q <= n,
    ensures
        log::prefix(
            stir::laid_words(o, idx, depth, q),
            stir::laid_words(o, idx, depth, n),
        ),
    decreases n,
{
    if q < n {
        lemma_laid_words(o, idx, depth, q, (n - 1) as nat);
    }
}

/// Query `q`'s path and row lie at their place.
proof fn lemma_row_here(
    cfg: VerifyConfig,
    data: VerifyData,
    ch: Draws,
    end: Duplex,
    i: nat,
    q: int,
)
    requires
        i <= verify::last(cfg),
        laid_round(cfg, data, ch, i),
        paths_shaped(cfg, data, ch, i),
        0 <= q < verify::positions(cfg, ch, i).len(),
    ensures
        ({
            let w = end.seen + words_before(cfg, data, ch, (verify::last(cfg) + 1) as nat);
            let o = verify::opening(cfg, data, i);
            let depth = verify::depth(cfg, i);
            let at = row_place(cfg, data, ch, end, i, q);
            let row = permutation::ints(o.rows@[q]@);
            &&& reading::siblings(w, at, depth) == verify::siblings(
                o,
                verify::positions(cfg, ch, i),
                depth,
                q,
            )
            &&& reading::words(w, at + 8 * depth, row.len()) == row
            &&& at + 8 * depth + row.len() <= w.len()
            &&& 0 <= at
        }),
{
    let m = (verify::last(cfg) + 1) as nat;
    let w = end.seen + words_before(cfg, data, ch, m);
    let o = verify::opening(cfg, data, i);
    let idx = verify::positions(cfg, ch, i);
    let depth = verify::depth(cfg, i);
    let at = row_place(cfg, data, ch, end, i, q);
    let row = permutation::ints(o.rows@[q]@);
    let sibs = verify::siblings(o, idx, depth, q);
    let path = stir::laid_path(sibs, depth);
    assert(path_shaped(sibs, depth));
    stir::lemma_laid(sibs, depth);
    lemma_words_before(cfg, data, ch, i + 1, m);
    lemma_laid_words(o, idx, depth, (q + 1) as nat, idx.len());
    let before = words_before(cfg, data, ch, i);
    let some = stir::laid_words(o, idx, depth, q as nat);
    let more = stir::laid_words(o, idx, depth, (q + 1) as nat);
    let all = stir::laid_words(o, idx, depth, idx.len());
    let upto = words_before(cfg, data, ch, i + 1);
    assert(upto == before + all);
    assert(more == (some + path) + row);
    assert(path.len() == 8 * depth);
    assert forall|t: int| 0 <= t < path.len() + row.len() implies #[trigger] w[at + t] == (path
        + row)[t] by {
        let x = some.len() + t;
        assert(more[x] == (path + row)[t]);
        assert(all[x] == more[x]);
        assert(upto[before.len() + x] == all[x]);
        assert(words_before(cfg, data, ch, m)[before.len() + x] == upto[before.len() + x]);
    }
    assert(reading::words(w, at + 8 * depth, row.len()) =~= row) by {
        assert forall|t: int| 0 <= t < row.len() implies reading::words(
            w,
            at + 8 * depth,
            row.len(),
        )[t] == row[t] by {
            assert(w[at + (8 * depth + t)] == (path + row)[8 * depth + t]);
        }
    }
    let got = reading::siblings(w, at, depth);
    assert forall|l: int| 0 <= l < depth implies got[l] == sibs[l] by {
        let from = 8 * (depth - 1 - l);
        assert(path.subrange(from, from + 8) == sibs[l]);
        assert forall|t: int| 0 <= t < 8 implies got[l][t] == sibs[l][t] by {
            assert(w[at + (from + t)] == (path + row)[from + t]);
            assert(path.subrange(from, from + 8)[t] == path[from + t]);
        }
        assert(sibs[l].len() == 8);
        assert(got[l] =~= sibs[l]);
    }
    assert(got =~= sibs);
}

/// Pairs that stand at places are the pairs at the places.
proof fn lemma_pairs_here(s: Seq<int>, w: Seq<int>, places: Seq<(u128, u128)>, vals: Seq<(Quad, Quad)>)
    requires
        log::pairs_stand(s, places, vals),
        log::prefix(s, w),
    ensures
        reading::pairs(w, places) == vals,
{
    assert forall|j: int| 0 <= j < places.len() implies reading::pairs(w, places)[j] == vals[j] by {
        assert(places[j].0 + 4 <= s.len());
        log::lemma_quad_prefix(s, w, places[j].0 as int);
        log::lemma_quad_prefix(s, w, places[j].1 as int);
    }
    assert(reading::pairs(w, places) =~= vals);
}

/// Nesting multiplications by a base element is Horner's rule.
proof fn lemma_horner(coeffs: Seq<Quad>, x: int)
    requires
        coeffs.len() > 0,
        canonical_list(coeffs),
    ensures
        model::nested(ext4::lifted(x), coeffs) == model::horner(coeffs, x),
    decreases coeffs.len(),
{
    if coeffs.len() == 1 {
        assert(coeffs =~= seq![coeffs[0]]);
        assert(ext4::canonical(coeffs[0]));
        lemma_last_coefficient(coeffs[0], x);
    } else {
        let rest = coeffs.drop_first();
        assert forall|i: int| 0 <= i < rest.len() implies ext4::canonical(#[trigger] rest[i]) by {
            assert(ext4::canonical(coeffs[i + 1]));
        }
        lemma_horner(rest, x);
    }
}

/// The folds on the proof's own data are the proof's.
proof fn lemma_own_folds(
    cfg: VerifyConfig,
    data: VerifyData,
    ch: Draws,
    end: Duplex,
    l: Layout,
    w: Seq<int>,
    i: nat,
)
    requires
        w == end.seen + words_before(cfg, data, ch, (verify::last(cfg) + 1) as nat),
        challenges(cfg, l, end, w) == ch,
        i <= verify::last(cfg),
        laid_round(cfg, data, ch, i),
        paths_shaped(cfg, data, ch, i),
        verify::measured(
            verify::opening(cfg, data, i),
            verify::folding_before(ch, i).len(),
        ),
        verify::positions(cfg, ch, i).len() > 0,
    ensures
        folds_on(cfg, data, ch, end, l, w, i) == verify::folds(
            verify::opening(cfg, data, i),
            verify::folding_before(ch, i),
        ),
{
    let o = verify::opening(cfg, data, i);
    let depth = verify::depth(cfg, i);
    let got = folds_on(cfg, data, ch, end, l, w, i);
    let want = verify::folds(o, verify::folding_before(ch, i));
    let count = row_count(cfg, data, i);
    lemma_row_len(cfg, data, i, verify::folding_before(ch, i).len());
    assert forall|q: int| 0 <= q < o.rows@.len() implies got[q] == want[q] by {
        lemma_row_here(cfg, data, ch, end, i, q);
        let at = row_place(cfg, data, ch, end, i, q) + 8 * depth;
        let row = o.rows@[q]@;
        let words = permutation::ints(row);
        assert(row.len() == row_len(cfg, data, i));
        assert forall|t: int| 0 <= t < row.len() implies w[at + t] == #[trigger] words[t] by {
            assert(reading::words(w, at, row.len())[t] == words[t]);
        }
        let elems = reading::row(w, o.extension, at, count);
        let own = verify::row_elems(o.extension, row);
        assert forall|j: int| 0 <= j < count implies elems[j] == own[j] by {
            if o.extension {
                assert(words[4 * j] == w[at + 4 * j] && words[4 * j + 1] == w[at + 4 * j + 1]
                    && words[4 * j + 2] == w[at + 4 * j + 2] && words[4 * j + 3] == w[at + 4 * j
                    + 3]);
            } else {
                assert(words[j] == w[at + j]);
            }
        }
        assert(elems =~= own);
    }
    assert(got =~= want);
}

/// So is the claim.
proof fn lemma_own_claim(
    cfg: VerifyConfig,
    data: VerifyData,
    ch: Draws,
    end: Duplex,
    l: Layout,
    w: Seq<int>,
    k: nat,
)
    requires
        laid_out(l, cfg, data, ch, end),
        buildable(cfg, data, ch),
        measured_draws(cfg, data, ch),
        laid_before(cfg, data, ch, (verify::last(cfg) + 1) as nat),
        all_shaped(cfg, data, ch, (verify::last(cfg) + 1) as nat),
        w == end.seen + words_before(cfg, data, ch, (verify::last(cfg) + 1) as nat),
        challenges(cfg, l, end, w) == ch,
        k <= verify::last(cfg),
    ensures
        claim_on(cfg, data, ch, end, l, w, k) == verify::claim_at(cfg, data, ch, k),
    decreases k,
{
    let t = data.transcript;
    lemma_seen(cfg, data, l, ch, end);
    if k == 0 {
        lemma_eval_count(data, l, end, l.evals@.len());
        let places = claimed(l.evals@, l.evals@.len()) + l.ood_answers@;
        assert(in_range(places, end.seen.len()));
        reading::lemma_same_quads(end.seen, w, places);
        let evals = verify::initial_evals(t);
        assert(ext4::canonical(evals[0]));
        model::law_batched(ch.alpha, evals);
        lemma_pairs_here(end.seen, w, l.initial_sumcheck@, verify::polys(t.initial_sumcheck@));
    } else {
        let i = (k - 1) as nat;
        let rl = l.rounds@[i as int];
        lemma_own_claim(cfg, data, ch, end, l, w, i);
        assert(round_placed(
            rl,
            cfg.transcript.rounds@[i as int],
            t.rounds@[i as int],
            ch.rounds[i as int],
            end.seen,
            end.drawn,
        ));
        assert(round_seen(rl, t.rounds@[i as int], ch.rounds[i as int], end.seen.len()));
        lemma_stands(end.seen, rl.ood_answers@, ext4::quads(t.rounds@[i as int].ood_answers@));
        reading::lemma_same_quads(end.seen, w, rl.ood_answers@);
        lemma_pairs_here(
            end.seen,
            w,
            rl.sumcheck@,
            verify::polys(t.rounds@[i as int].sumcheck@),
        );
        lemma_fits(cfg, data, ch, i);
        lemma_own_folds(cfg, data, ch, end, l, w, i);
    }
}

/// A round that is laid out is measured.
proof fn lemma_fits(cfg: VerifyConfig, data: VerifyData, ch: Draws, i: nat)
    requires
        buildable(cfg, data, ch),
        measured_draws(cfg, data, ch),
        laid_before(cfg, data, ch, (verify::last(cfg) + 1) as nat),
        all_shaped(cfg, data, ch, (verify::last(cfg) + 1) as nat),
        i <= verify::last(cfg),
    ensures
        laid_round(cfg, data, ch, i),
        paths_shaped(cfg, data, ch, i),
        verify::measured(
            verify::opening(cfg, data, i),
            verify::folding_before(ch, i).len(),
        ),
        verify::positions(cfg, ch, i).len() > 0,
{
    assert(laid_before(cfg, data, ch, i + 1)) by {
        assert forall|j: nat| j < i + 1 implies #[trigger] laid_round(cfg, data, ch, j) by {}
    }
    assert(laid_round(cfg, data, ch, i));
    assert(paths_shaped(cfg, data, ch, i));
}

/// The proof's own data passes exactly if the proof does.
proof fn lemma_own_data(
    cfg: VerifyConfig,
    data: VerifyData,
    ch: Draws,
    end: Duplex,
    l: Layout,
    w: Seq<int>,
)
    requires
        laid_out(l, cfg, data, ch, end),
        buildable(cfg, data, ch),
        measured_draws(cfg, data, ch),
        laid_before(cfg, data, ch, (verify::last(cfg) + 1) as nat),
        all_shaped(cfg, data, ch, (verify::last(cfg) + 1) as nat),
        w == end.seen + words_before(cfg, data, ch, (verify::last(cfg) + 1) as nat),
    ensures
        passes_on(cfg, data, ch, end, l, w) == passes(cfg, data, ch),
{
    let t = data.transcript;
    let n = verify::last(cfg);
    lemma_own(cfg, data, l, ch, end);
    sponge::law_followed_prefix(end.calls, end.seen, w);
    assert(challenges(cfg, l, end, w) == ch);
    lemma_seen(cfg, data, l, ch, end);
    assert forall|i: nat| i < n + 1 implies #[trigger] round_on(cfg, data, ch, end, l, w, i)
        == round_reaches(cfg, data, ch, i) by {
        lemma_own_round(cfg, data, ch, end, l, w, i);
    }
    if all_reach(cfg, data, ch, n + 1) {
        assert forall|i: nat| i < n + 1 implies #[trigger] round_on(cfg, data, ch, end, l, w, i) by {
            assert(round_reaches(cfg, data, ch, i));
        }
    }
    if rounds_on(cfg, data, ch, end, l, w, n + 1) {
        assert forall|i: nat| i < n + 1 implies #[trigger] round_reaches(cfg, data, ch, i) by {
            assert(round_on(cfg, data, ch, end, l, w, i));
        }
    }
    assert(rounds_on(cfg, data, ch, end, l, w, n + 1) == all_reach(cfg, data, ch, n + 1));
    lemma_fits(cfg, data, ch, n);
    lemma_own_folds(cfg, data, ch, end, l, w, n);
    let coeffs = ext4::quads(t.final_poly@);
    let got = final_poly_on(data, l, w);
    assert(got =~= coeffs) by {
        let words = script::spread(coeffs);
        layout::lemma_words(end.seen, w, l.final_poly as int, words);
        assert forall|j: int| 0 <= j < coeffs.len() implies got[j] == coeffs[j] by {
            lemma_coefficient(w, l.final_poly as int, coeffs, j);
        }
    }
    lemma_pow2_pos(ch.final_folding.len());
    assert forall|q: int| 0 <= q < ch.final_queries.len() implies #[trigger] agrees_on(
        cfg,
        data,
        ch,
        end,
        l,
        w,
        q,
    ) == verify::agrees(cfg, data, ch, q) by {
        lemma_horner(
            coeffs,
            verify::points(verify::generator(cfg, n), ch.final_queries)[q],
        );
    }
    if verify::all_agree(cfg, data, ch) {
        assert forall|q: int| 0 <= q < ch.final_queries.len() implies #[trigger] agrees_on(
            cfg,
            data,
            ch,
            end,
            l,
            w,
            q,
        ) by {
            assert(verify::agrees(cfg, data, ch, q));
        }
    }
    if all_agree_on(cfg, data, ch, end, l, w) {
        assert forall|q: int| 0 <= q < ch.final_queries.len() implies #[trigger] verify::agrees(
            cfg,
            data,
            ch,
            q,
        ) by {
            assert(agrees_on(cfg, data, ch, end, l, w, q));
        }
    }
    assert(all_agree_on(cfg, data, ch, end, l, w) == verify::all_agree(cfg, data, ch));
    lemma_own_claim(cfg, data, ch, end, l, w, n);
    lemma_pairs_here(end.seen, w, l.final_sumcheck@, verify::polys(t.final_sumcheck@));
}

/// A round on its own data.
proof fn lemma_own_round(
    cfg: VerifyConfig,
    data: VerifyData,
    ch: Draws,
    end: Duplex,
    l: Layout,
    w: Seq<int>,
    i: nat,
)
    requires
        laid_out(l, cfg, data, ch, end),
        buildable(cfg, data, ch),
        measured_draws(cfg, data, ch),
        laid_before(cfg, data, ch, (verify::last(cfg) + 1) as nat),
        all_shaped(cfg, data, ch, (verify::last(cfg) + 1) as nat),
        w == end.seen + words_before(cfg, data, ch, (verify::last(cfg) + 1) as nat),
        challenges(cfg, l, end, w) == ch,
        reading::samples(end, w) == end.drawn,
        i <= verify::last(cfg),
    ensures
        round_on(cfg, data, ch, end, l, w, i) == round_reaches(cfg, data, ch, i),
{
    let idx = verify::positions(cfg, ch, i);
    let digest = verify::root_before(data, i);
    let words = permutation::ints(digest);
    let root = root_place(l, i);
    lemma_seen(cfg, data, l, ch, end);
    lemma_fits(cfg, data, ch, i);
    lemma_row_len(cfg, data, i, verify::folding_before(ch, i).len());
    if i > 0 {
        assert(round_placed(
            l.rounds@[i - 1],
            cfg.transcript.rounds@[i - 1],
            data.transcript.rounds@[i - 1],
            ch.rounds[i - 1],
            end.seen,
            end.drawn,
        ));
    }
    assert(digest.len() >= 8);
    layout::lemma_words(end.seen, w, root, words);
    assert(reading::words(w, root, 8) =~= words.take(8)) by {
        assert forall|j: int| 0 <= j < 8 implies reading::words(w, root, 8)[j] == words.take(8)[j] by {
            assert(w.subrange(root, root + words.len())[j] == words[j]);
        }
    }
    assert forall|q: int| 0 <= q < idx.len() implies #[trigger] reaches_on(
        cfg,
        data,
        ch,
        end,
        l,
        w,
        i,
        q,
    ) == reaches(cfg, data, ch, i, q) by {
        lemma_row_here(cfg, data, ch, end, i, q);
        assert(verify::opening(cfg, data, i).rows@[q]@.len() == row_len(cfg, data, i));
    }
    if round_reaches(cfg, data, ch, i) {
        assert forall|q: int| 0 <= q < idx.len() implies #[trigger] reaches_on(
            cfg,
            data,
            ch,
            end,
            l,
            w,
            i,
            q,
        ) by {
            assert(reaches(cfg, data, ch, i, q));
        }
    }
    if round_on(cfg, data, ch, end, l, w, i) {
        assert forall|q: int| 0 <= q < idx.len() implies #[trigger] reaches(cfg, data, ch, i, q) by {
            assert(reaches_on(cfg, data, ch, end, l, w, i, q));
        }
    }
}

/// A coefficient of a list in the data.
proof fn lemma_coefficient(s: Seq<int>, at: int, coeffs: Seq<Quad>, j: int)
    requires
        0 <= at,
        layout::words_at(s, at, script::spread(coeffs)),
        0 <= j < coeffs.len(),
    ensures
        script::quad_at(s, at + 4 * j) == coeffs[j],
{
    let w = script::spread(coeffs);
    let empty = Seq::<int>::empty();
    script::lemma_spread_len(coeffs);
    script::lemma_read(empty, coeffs, j);
    assert(empty + w =~= w);
    assert forall|i: int| 0 <= i < w.len() implies s[at + i] == #[trigger] w[i] by {
        assert(s.subrange(at, at + w.len())[i] == w[i]);
    }
    assert(w[4 * j] == s[at + 4 * j] && w[4 * j + 1] == s[at + 4 * j + 1] && w[4 * j + 2] == s[at + 4
        * j + 2] && w[4 * j + 3] == s[at + 4 * j + 3]);
}

/// The innermost step of a Horner evaluation.
proof fn lemma_last_coefficient(c: Quad, x: int)
    requires
        ext4::canonical(c),
    ensures
        model::horner(seq![c], x) == c,
{
    assert(seq![c].drop_first() =~= Seq::<Quad>::empty());
    assert(model::horner(Seq::<Quad>::empty(), x) == ext4::zero());
    ext4::law_times_zero(ext4::lifted(x));
    ext4::law_plus_zero(c);
}

/// The built script is the pushes of its data followed by a program, and the
/// program over any other data runs through exactly if that data passes. The
/// layout says where the program reads each message and challenge.
pub open spec fn scripted(
    cfg: VerifyConfig,
    data: VerifyData,
    ch: Draws,
    end: Duplex,
    l: Layout,
    script: Seq<Op>,
    words: Seq<u32>,
    program: Seq<Op>,
) -> bool {
    &&& layout::located(l, cfg.transcript, data.transcript, sponge::fresh())
    &&& laid_out(l, cfg, data, ch, end)
    &&& script == pushes(words) + program
    &&& forall|u: Seq<u32>|
        u.len() == words.len() ==> {
            &&& script::run(#[trigger] pushes(u) + program, empty_machine()) is Running
                <==> passes_on(cfg, data, ch, end, l, permutation::ints(u))
            &&& script::run(pushes(u) + program, empty_machine()) is Rejected <==> !passes_on(
                cfg,
                data,
                ch,
                end,
                l,
                permutation::ints(u),
            )
        }
}

/// Builds the verifier script for `data` under `cfg`.
///
/// Fails when the openings cannot be laid out against the transcript's queries (a
/// proof whose messages were changed after the openings were made, or one with the
/// wrong number of them): the verifier rejects such a proof at the openings too. A
/// well-formed but false proof builds, and its script fails when run. The script
/// permutes its sponge as often as the transcript does, reads every draw from it,
/// hashes every opened row and walks it to a root, and folds every round. It checks
/// what it reads: over other data of the same length its program runs through
/// exactly if that data passes.
#[verifier::rlimit(60)]
pub fn build(cfg: &VerifyConfig, data: &VerifyData) -> (r: Result<Built, Error>)
    requires
        reference::fits(cfg.transcript, data.transcript),
        ({
            let (end, ch) = reference::run(cfg.transcript, data.transcript, sponge::fresh());
            &&& !end.stuck
            &&& end.input.len() == 0
            &&& buildable(*cfg, *data, ch)
        }),
    ensures
        ({
            let (end, ch) = reference::run(cfg.transcript, data.transcript, sponge::fresh());
            let rounds = (verify::last(*cfg) + 1) as nat;
            &&& r is Ok <==> laid_before(*cfg, *data, ch, rounds)
            &&& r matches Err(e) ==> exists|i: nat|
                {
                    &&& i < rounds
                    &&& laid_before(*cfg, *data, ch, i)
                    &&& !#[trigger] laid_round(*cfg, *data, ch, i)
                    &&& e == round_refusal(*cfg, *data, ch, i)
                }
            &&& r matches Ok(built) ==> {
                &&& built.challenges.are(ch)
                &&& built.transcript_permutations == end.permutations
                &&& permutation::ints(built.data@) == end.seen + words_before(
                    *cfg,
                    *data,
                    ch,
                    rounds,
                )
                &&& script::census(built.script@) == script::together(
                    transcript_work(end),
                    arithmetic_work(*cfg, *data, ch),
                )
                &&& exists|l: Layout, program: Seq<Op>| #[trigger]
                    scripted(
                        *cfg,
                        *data,
                        ch,
                        end,
                        l,
                        built.script@,
                        built.data@,
                        program,
                    )
                &&& script::run(built.script@, empty_machine()) is Running <==> passes(
                    *cfg,
                    *data,
                    ch,
                )
                &&& script::run(built.script@, empty_machine()) is Rejected <==> !passes(
                    *cfg,
                    *data,
                    ch,
                )
            }
        }),
{
    let ghost (end, ch) = reference::run(cfg.transcript, data.transcript, sponge::fresh());
    let mut b = Builder::new();
    proof {
        reference::law_duplex_run(cfg.transcript, data.transcript, sponge::fresh());
    }
    let challenges = reference::transcript(&cfg.transcript, &data.transcript, &mut b);
    let transcript_permutations = b.permutations;
    b.end_transcript();
    assert(b.tape.data.len() == b.tape.data@.len());
    assert(b.words().len() == b.tape.data@.len());
    let l = layout::layout(&cfg.transcript, &data.transcript, b.samples.as_slice());
    proof {
        lemma_measured(*cfg, *data);
        assert(laid_out(l, *cfg, *data, ch, end));
    }
    match finish(&mut b, &l, cfg, data, Ghost(ch), Ghost(end)) {
        Ok(_) => {
            let script = assemble(&b.tape.data, &b.tape.ops);
            let ghost program = b.tape.ops@;
            let ghost n = b.tape.data@.len();
            proof {
                assert forall|u: Seq<u32>| u.len() == n implies ({
                    let w = permutation::ints(u);
                    &&& script::run(#[trigger] pushes(u) + program, empty_machine()) is Running
                        <==> passes_on(*cfg, *data, ch, end, l, w)
                    &&& script::run(pushes(u) + program, empty_machine()) is Rejected
                        <==> !passes_on(*cfg, *data, ch, end, l, w)
                }) by {
                    let w = permutation::ints(u);
                    lemma_run_on(u, program);
                    assert(w.len() == n);
                    assert(script::run(program, tape::start(w, n)) == b.tape.outcome(w));
                    assert((b.tape.ok@)(w) == passes_on(*cfg, *data, ch, end, l, w));
                }
                let w = permutation::ints(b.tape.data@);
                lemma_own_data(*cfg, *data, ch, end, l, w);
                assert(pushes(b.tape.data@) + program == script@);
                assert(scripted(*cfg, *data, ch, end, l, script@, b.tape.data@, program));
            }
            let out = b.tape.data;
            Ok(Built { script, data: out, transcript_permutations, challenges })
        },
        Err(e) => Err(e),
    }
}

// ---------------------------------------------------------------------------
// The script against the verifier.
// ---------------------------------------------------------------------------

/// A digest for every root.
pub open spec fn single_roots(cfg: VerifyConfig, data: VerifyData) -> bool {
    forall|i: nat| i <= verify::last(cfg) ==> (#[trigger] verify::root_before(data, i)).len() == 8
}

/// A script that runs through is the script of a proof that verifies.
pub proof fn law_scripts_pass_only_what_verifies(cfg: VerifyConfig, data: VerifyData, ch: Draws)
    requires
        ch.pow_ok,
        single_roots(cfg, data),
        laid_before(cfg, data, ch, (verify::last(cfg) + 1) as nat),
        passes(cfg, data, ch),
    ensures
        verify::accepts(cfg, data, ch),
{
    let n = verify::last(cfg);
    assert forall|i: nat| i < n + 1 implies #[trigger] verify::opened(cfg, data, ch, i) by {
        let idx = verify::positions(cfg, ch, i);
        let root = verify::root_before(data, i);
        assert(laid_round(cfg, data, ch, i));
        assert(round_reaches(cfg, data, ch, i));
        assert(root.len() == 8);
        assert(permutation::ints(root).take(8) =~= permutation::ints(root));
        assert forall|q: int| 0 <= q < idx.len() implies #[trigger] verify::round_authentic(
            cfg,
            data,
            ch,
            i,
            q,
        ) by {
            assert(reaches(cfg, data, ch, i, q));
        }
    }
}

/// The script of a proof that verifies runs through.
pub proof fn law_scripts_pass_what_verifies(cfg: VerifyConfig, data: VerifyData, ch: Draws)
    requires
        verify::accepts(cfg, data, ch),
    ensures
        laid_before(cfg, data, ch, (verify::last(cfg) + 1) as nat),
        passes(cfg, data, ch),
{
    let n = verify::last(cfg);
    assert forall|i: nat| i < n + 1 implies #[trigger] laid_round(cfg, data, ch, i) by {
        assert(verify::opened(cfg, data, ch, i));
    }
    assert forall|i: nat| i < n + 1 implies #[trigger] round_reaches(cfg, data, ch, i) by {
        let idx = verify::positions(cfg, ch, i);
        let root = verify::root_before(data, i);
        assert(verify::opened(cfg, data, ch, i));
        assert(permutation::ints(root).take(8) =~= permutation::ints(root));
        assert forall|q: int| 0 <= q < idx.len() implies #[trigger] reaches(
            cfg,
            data,
            ch,
            i,
            q,
        ) by {
            assert(verify::round_authentic(cfg, data, ch, i, q));
        }
    }
}

/// An unprovable opening is refused by both: a proof whose script cannot be built
/// does not verify.
pub proof fn law_unbuildable_proofs_do_not_verify(cfg: VerifyConfig, data: VerifyData, ch: Draws)
    requires
        !laid_before(cfg, data, ch, (verify::last(cfg) + 1) as nat),
    ensures
        !verify::accepts(cfg, data, ch),
{
    let n = verify::last(cfg);
    if verify::accepts(cfg, data, ch) {
        assert forall|i: nat| i < n + 1 implies #[trigger] laid_round(cfg, data, ch, i) by {
            assert(verify::opened(cfg, data, ch, i));
        }
    }
}

} // verus!

//! Where a transcript puts each prover message and each challenge.
//!
//! The transcript is walked in its own order: a message lies at its place in the
//! stream of observed elements, a challenge at its place among the samples.
use super::log;
use super::log::{block_positions, extends, pairs_stand, prefix, stand};
use super::reference;
use super::reference::{
    Draws, RoundConfig, RoundData, RoundDraws, SumcheckRoundData, TranscriptConfig, TranscriptData,
};
use super::script;
use super::script::quad_at;
use super::sponge;
use super::sponge::Duplex;
use super::verify;
use crate::poseidon2::ext4;
use crate::poseidon2::ext4::Quad;
use crate::poseidon2::reference as permutation;
use vstd::prelude::*;

verus! {

/// Where the transcript put each prover message (stream index) and each challenge
/// (kept entry).
#[derive(Debug)]
pub struct Layout {
    pub root: u128,
    pub ood_answers: Vec<u128>,
    pub evals: Vec<Vec<u128>>,
    pub initial_sumcheck: Vec<(u128, u128)>,
    pub rounds: Vec<RoundLayout>,
    pub final_poly: u128,
    pub final_sumcheck: Vec<(u128, u128)>,
    pub k_ood: Vec<u128>,
    pub k_claim: Vec<u128>,
    pub k_alpha: u128,
    pub k_initial_fold: Vec<u128>,
    pub k_final_draws: Vec<u128>,
    pub k_final_fold: Vec<u128>,
}

/// The same of one intermediate round.
#[derive(Debug)]
pub struct RoundLayout {
    pub root: u128,
    pub ood_answers: Vec<u128>,
    pub sumcheck: Vec<(u128, u128)>,
    pub k_ood: Vec<u128>,
    pub k_draws: Vec<u128>,
    pub k_combination: u128,
    pub k_fold: Vec<u128>,
}

/// Words stand at `at`.
pub open spec fn words_at(s: Seq<int>, at: int, words: Seq<int>) -> bool {
    &&& at + words.len() <= s.len()
    &&& s.subrange(at, at + words.len()) == words
}

/// An extension element stands at `at`.
pub open spec fn one_stands(s: Seq<int>, at: int, q: Quad) -> bool {
    &&& at + 4 <= s.len()
    &&& quad_at(s, at) == q
}

/// Where a block of entries starts.
pub open spec fn first_of(entries: Seq<u128>) -> int {
    if entries.len() == 0 {
        0
    } else {
        entries[0] as int
    }
}

/// The entries are the draws that gave `qs`.
pub open spec fn draws_stand(
    log: Seq<int>,
    entries: Seq<u128>,
    bits: nat,
    num: nat,
    qs: Seq<int>,
) -> bool {
    let lo = first_of(entries);
    &&& lo + entries.len() <= log.len()
    &&& forall|i: int| 0 <= i < entries.len() ==> #[trigger] entries[i] == lo + i
    &&& block_positions(log, bits, num, lo, lo + entries.len()) == qs
}

/// A round's layout in the logs.
pub open spec fn round_placed(
    l: RoundLayout,
    rc: RoundConfig,
    rd: RoundData,
    r: RoundDraws,
    seen: Seq<int>,
    drawn: Seq<int>,
) -> bool {
    &&& words_at(seen, l.root as int, permutation::ints(rd.root@))
    &&& stand(seen, l.ood_answers@, ext4::quads(rd.ood_answers@))
    &&& pairs_stand(seen, l.sumcheck@, verify::polys(rd.sumcheck@))
    &&& stand(drawn, l.k_ood@, r.ood_points)
    &&& draws_stand(drawn, l.k_draws@, rc.domain_bits as nat, rc.num_queries as nat, r.queries)
    &&& one_stands(drawn, l.k_combination as int, r.combination)
    &&& stand(drawn, l.k_fold@, r.folding)
}

/// The layout in the logs.
pub open spec fn placed(
    l: Layout,
    cfg: TranscriptConfig,
    data: TranscriptData,
    ch: Draws,
    seen: Seq<int>,
    drawn: Seq<int>,
) -> bool {
    &&& words_at(seen, l.root as int, permutation::ints(data.root@))
    &&& stand(seen, l.ood_answers@, ext4::quads(data.initial_ood_answers@))
    &&& l.evals@.len() == data.openings@.len()
    &&& forall|c: int|
        0 <= c < l.evals@.len() ==> stand(
            seen,
            (#[trigger] l.evals@[c])@,
            ext4::quads(data.openings@[c]@),
        )
    &&& pairs_stand(seen, l.initial_sumcheck@, verify::polys(data.initial_sumcheck@))
    &&& l.rounds@.len() == cfg.rounds@.len()
    &&& forall|i: int|
        0 <= i < l.rounds@.len() ==> round_placed(
            #[trigger] l.rounds@[i],
            cfg.rounds@[i],
            data.rounds@[i],
            ch.rounds[i],
            seen,
            drawn,
        )
    &&& words_at(seen, l.final_poly as int, script::spread(ext4::quads(data.final_poly@)))
    &&& pairs_stand(seen, l.final_sumcheck@, verify::polys(data.final_sumcheck@))
    &&& stand(drawn, l.k_ood@, ch.initial_ood_points)
    &&& stand(drawn, l.k_claim@, ch.opening_points)
    &&& one_stands(drawn, l.k_alpha as int, ch.alpha)
    &&& stand(drawn, l.k_initial_fold@, ch.initial_folding)
    &&& draws_stand(
        drawn,
        l.k_final_draws@,
        cfg.final_domain_bits as nat,
        cfg.final_queries as nat,
        ch.final_queries,
    )
    &&& stand(drawn, l.k_final_fold@, ch.final_folding)
}

/// Extension elements one after the other from `from`.
pub open spec fn run_from(places: Seq<u128>, from: int) -> bool {
    forall|j: int| 0 <= j < places.len() ==> #[trigger] places[j] == from + 4 * j
}

/// Pairs of extension elements one after the other from `from`.
pub open spec fn pairs_from(places: Seq<(u128, u128)>, from: int) -> bool {
    forall|j: int|
        0 <= j < places.len() ==> (#[trigger] places[j]).0 == from + 8 * j && places[j].1 == from
            + 8 * j + 4
}

/// A block of draws from `from`.
pub open spec fn block_from(entries: Seq<u128>, from: int) -> bool {
    entries.len() > 0 ==> first_of(entries) == from
}

/// Each message of a round lies where the transcript observes it, each challenge
/// where it is drawn: so many elements were observed or drawn before.
pub open spec fn round_located(l: RoundLayout, rc: RoundConfig, rd: RoundData, d: Duplex) -> bool {
    let a = sponge::observed_all(d, rd.root@);
    let b = reference::ood_samples(a, rd.ood_answers@, rd.ood_answers@.len()).0;
    let g = reference::queries(b, rc.domain_bits as nat, rc.num_queries as nat).0;
    let i = sponge::observed_all(sponge::sampled_quad(g).0, rd.seed_sumcheck@);
    &&& l.root == d.seen.len()
    &&& run_from(l.ood_answers@, a.seen.len() as int)
    &&& run_from(l.k_ood@, a.drawn.len() as int)
    &&& block_from(l.k_draws@, b.drawn.len() as int)
    &&& l.k_combination == g.drawn.len()
    &&& pairs_from(l.sumcheck@, i.seen.len() as int)
    &&& run_from(l.k_fold@, i.drawn.len() as int)
}

/// The same of the whole transcript from `d`.
pub open spec fn located(l: Layout, cfg: TranscriptConfig, data: TranscriptData, d: Duplex) -> bool {
    let s0 = sponge::observed_all(d, data.seed_commitment@);
    let start = sponge::observed_all(s0, data.root@);
    let (seeds, answers) = (data.seed_virtual@, data.initial_ood_answers@);
    let e = reference::virtual_claims(start, seeds, answers, answers.len()).0;
    let f = reference::opening_claims(
        e,
        data.seed_claim@,
        data.openings@,
        data.openings@.len(),
    ).0;
    let g0 = sponge::observed_all(
        sponge::observed_all(f, data.seed_whir@),
        data.seed_batching@,
    );
    let h0 = sponge::observed_all(sponge::sampled_quad(g0).0, data.seed_initial_sumcheck@);
    let h = reference::sumchecks(
        h0,
        data.initial_sumcheck@,
        0,
        data.initial_sumcheck@.len(),
    ).0;
    let i = reference::rounds(h, cfg.rounds@, data.rounds@, cfg.rounds@.len()).0;
    let j0 = sponge::observed_quads(i, data.final_poly@);
    let j = reference::queries(
        j0,
        cfg.final_domain_bits as nat,
        cfg.final_queries as nat,
    ).0;
    let m = sponge::observed_all(j, data.seed_final_sumcheck@);
    &&& l.root == s0.seen.len()
    &&& run_from(l.k_ood@, start.drawn.len() as int)
    &&& forall|c: int|
        0 <= c < l.ood_answers@.len() ==> #[trigger] l.ood_answers@[c] + 4
            == reference::virtual_claims(start, seeds, answers, (c + 1) as nat).0.seen.len()
    &&& run_from(l.k_claim@, e.drawn.len() as int)
    &&& forall|c: int|
        0 <= c < l.evals@.len() ==> run_from(
            (#[trigger] l.evals@[c])@,
            reference::opening_claims(
                e,
                data.seed_claim@,
                data.openings@,
                (c + 1) as nat,
            ).0.seen.len() - 4 * data.openings@[c]@.len(),
        )
    &&& l.k_alpha == g0.drawn.len()
    &&& pairs_from(l.initial_sumcheck@, h0.seen.len() as int)
    &&& run_from(l.k_initial_fold@, h0.drawn.len() as int)
    &&& forall|c: int|
        0 <= c < l.rounds@.len() ==> round_located(
            #[trigger] l.rounds@[c],
            cfg.rounds@[c],
            data.rounds@[c],
            reference::rounds(h, cfg.rounds@, data.rounds@, c as nat).0,
        )
    &&& l.final_poly == i.seen.len()
    &&& block_from(l.k_final_draws@, j0.drawn.len() as int)
    &&& pairs_from(l.final_sumcheck@, m.seen.len() as int)
    &&& run_from(l.k_final_fold@, m.drawn.len() as int)
}

pub proof fn lemma_words(s: Seq<int>, t: Seq<int>, at: int, words: Seq<int>)
    requires
        prefix(s, t),
        0 <= at,
        words_at(s, at, words),
    ensures
        words_at(t, at, words),
{
    assert(t.subrange(at, at + words.len()) =~= s.subrange(at, at + words.len()));
}

pub proof fn lemma_draws(
    s: Seq<int>,
    t: Seq<int>,
    entries: Seq<u128>,
    bits: nat,
    num: nat,
    qs: Seq<int>,
)
    requires
        prefix(s, t),
        draws_stand(s, entries, bits, num, qs),
    ensures
        draws_stand(t, entries, bits, num, qs),
{
    let lo = first_of(entries);
    log::lemma_block_prefix(s, t, bits, lo, lo + entries.len());
}

pub proof fn lemma_round_placed(
    l: RoundLayout,
    rc: RoundConfig,
    rd: RoundData,
    r: RoundDraws,
    s: Seq<int>,
    t: Seq<int>,
    d: Seq<int>,
    e: Seq<int>,
)
    requires
        prefix(s, t),
        prefix(d, e),
        round_placed(l, rc, rd, r, s, d),
    ensures
        round_placed(l, rc, rd, r, t, e),
{
    lemma_words(s, t, l.root as int, permutation::ints(rd.root@));
    log::lemma_stand(s, t, l.ood_answers@, ext4::quads(rd.ood_answers@));
    log::lemma_pairs_stand(s, t, l.sumcheck@, verify::polys(rd.sumcheck@));
    log::lemma_stand(d, e, l.k_ood@, r.ood_points);
    lemma_draws(d, e, l.k_draws@, rc.domain_bits as nat, rc.num_queries as nat, r.queries);
    log::lemma_quad_prefix(d, e, l.k_combination as int);
    log::lemma_stand(d, e, l.k_fold@, r.folding);
}

/// Takes the next `n` places.
fn take(at: &mut usize, n: usize) -> (r: u128)
    requires
        *old(at) + n <= usize::MAX,
    ensures
        *final(at) == *old(at) + n,
        r == *old(at),
{
    let r = *at as u128;
    *at = *at + n;
    r
}

/// The virtual claims' points and answers.
fn place_virtual(data: &TranscriptData, s: &mut usize, k: &mut usize, Ghost(d): Ghost<Duplex>) -> (r: (
    Vec<u128>,
    Vec<u128>,
))
    requires
        *old(s) == d.seen.len(),
        *old(k) == d.drawn.len(),
        data.seed_virtual@.len() == data.initial_ood_answers@.len(),
        ({
            let e = reference::virtual_claims(
                d,
                data.seed_virtual@,
                data.initial_ood_answers@,
                data.initial_ood_answers@.len(),
            ).0;
            e.seen.len() <= usize::MAX && e.drawn.len() <= usize::MAX
        }),
    ensures
        ({
            let (e, points) = reference::virtual_claims(
                d,
                data.seed_virtual@,
                data.initial_ood_answers@,
                data.initial_ood_answers@.len(),
            );
            &&& *final(s) == e.seen.len()
            &&& *final(k) == e.drawn.len()
            &&& extends(d, e)
            &&& stand(e.drawn, r.0@, points)
            &&& stand(e.seen, r.1@, ext4::quads(data.initial_ood_answers@))
            &&& run_from(r.0@, d.drawn.len() as int)
            &&& forall|c: int|
                0 <= c < r.1@.len() ==> #[trigger] r.1@[c] + 4 == reference::virtual_claims(
                    d,
                    data.seed_virtual@,
                    data.initial_ood_answers@,
                    (c + 1) as nat,
                ).0.seen.len()
        }),
{
    let ghost seeds = data.seed_virtual@;
    let ghost answers = data.initial_ood_answers@;
    let ghost n = answers.len();
    let ghost vals = ext4::quads(answers);
    let mut points: Vec<u128> = Vec::new();
    let mut places: Vec<u128> = Vec::new();
    let mut i: usize = 0;
    while i < data.seed_virtual.len()
        invariant
            i <= n,
            n == answers.len(),
            seeds == data.seed_virtual@,
            seeds.len() == n,
            answers == data.initial_ood_answers@,
            vals == ext4::quads(answers),
            reference::virtual_claims(d, seeds, answers, n).0.seen.len() <= usize::MAX,
            reference::virtual_claims(d, seeds, answers, n).0.drawn.len() <= usize::MAX,
            ({
                let (e, us) = reference::virtual_claims(d, seeds, answers, i as nat);
                &&& *s == e.seen.len()
                &&& *k == e.drawn.len()
                &&& extends(d, e)
                &&& stand(e.drawn, points@, us)
                &&& stand(e.seen, places@, vals.take(i as int))
            }),
            points@.len() == i,
            places@.len() == i,
            *k == d.drawn.len() + 4 * i,
            run_from(points@, d.drawn.len() as int),
            forall|c: int|
                0 <= c < places@.len() ==> #[trigger] places@[c] + 4 == reference::virtual_claims(
                    d,
                    seeds,
                    answers,
                    (c + 1) as nat,
                ).0.seen.len(),
        decreases n - i,
    {
        let ghost (e, us) = reference::virtual_claims(d, seeds, answers, i as nat);
        let ghost f = sponge::observed_all(e, seeds[i as int]@);
        let ghost (g, u) = sponge::sampled_quad(f);
        let ghost h = sponge::observed_quad(g, answers[i as int]@);
        proof {
            log::log_observed_all(e, seeds[i as int]@);
            log::log_sampled_quad(f);
            log::log_observed_quad(g, answers[i as int]@);
            log::log_virtual(d, seeds, answers, (i + 1) as nat, n);
            script::lemma_spread_len(seq![u]);
            script::lemma_spread_len(seq![ext4::quad(answers[i as int]@)]);
            assert(h == reference::virtual_claims(d, seeds, answers, (i + 1) as nat).0);
        }
        let _skip = take(s, data.seed_virtual[i].len());
        let p = take(k, 4);
        let a = take(s, 4);
        proof {
            log::lemma_stand_push(e.drawn, h.drawn, points@, us, p, u);
            log::lemma_stand_push(e.seen, h.seen, places@, vals.take(i as int), a, vals[i as int]);
            assert(vals.take(i as int).push(vals[i as int]) =~= vals.take(i + 1));
        }
        points.push(p);
        places.push(a);
        i = i + 1;
    }
    assert(vals.take(i as int) =~= vals);
    (points, places)
}

/// The places of the elements of a list that was just observed.
fn place_list(n: usize, s: &mut usize, Ghost(before): Ghost<Seq<int>>, Ghost(vals): Ghost<Seq<Quad>>) -> (r:
    Vec<u128>)
    requires
        *old(s) == before.len(),
        vals.len() == n,
        before.len() + 4 * n <= usize::MAX,
    ensures
        *final(s) == before.len() + 4 * n,
        stand(before + script::spread(vals), r@, vals),
        run_from(r@, before.len() as int),
{
    let mut r: Vec<u128> = Vec::new();
    let ghost all = before + script::spread(vals);
    proof {
        script::lemma_spread_len(vals);
    }
    while r.len() < n
        invariant
            r@.len() <= n,
            vals.len() == n,
            before.len() + 4 * n <= usize::MAX,
            *s == before.len() + 4 * r@.len(),
            all == before + script::spread(vals),
            all.len() == before.len() + 4 * n,
            run_from(r@, before.len() as int),
            stand(all, r@, vals.take(r@.len() as int)),
        decreases n - r@.len(),
    {
        let ghost j = r@.len() as int;
        let a = take(s, 4);
        proof {
            script::lemma_read(before, vals, j);
            log::lemma_stand_push(all, all, r@, vals.take(j), a, vals[j]);
            assert(vals.take(j).push(vals[j]) =~= vals.take(j + 1));
        }
        r.push(a);
    }
    assert(vals.take(n as int) =~= vals);
    r
}

/// The opening claims' points and evaluations.
fn place_claims(data: &TranscriptData, s: &mut usize, k: &mut usize, Ghost(d): Ghost<Duplex>) -> (r: (
    Vec<u128>,
    Vec<Vec<u128>>,
))
    requires
        *old(s) == d.seen.len(),
        *old(k) == d.drawn.len(),
        data.seed_claim@.len() == data.openings@.len(),
        ({
            let e = reference::opening_claims(
                d,
                data.seed_claim@,
                data.openings@,
                data.openings@.len(),
            ).0;
            e.seen.len() <= usize::MAX && e.drawn.len() <= usize::MAX
        }),
    ensures
        ({
            let (e, points) = reference::opening_claims(
                d,
                data.seed_claim@,
                data.openings@,
                data.openings@.len(),
            );
            &&& *final(s) == e.seen.len()
            &&& *final(k) == e.drawn.len()
            &&& extends(d, e)
            &&& stand(e.drawn, r.0@, points)
            &&& r.1@.len() == data.openings@.len()
            &&& forall|c: int|
                0 <= c < r.1@.len() ==> stand(
                    e.seen,
                    (#[trigger] r.1@[c])@,
                    ext4::quads(data.openings@[c]@),
                )
            &&& run_from(r.0@, d.drawn.len() as int)
            &&& forall|c: int|
                0 <= c < r.1@.len() ==> run_from(
                    (#[trigger] r.1@[c])@,
                    reference::opening_claims(
                        d,
                        data.seed_claim@,
                        data.openings@,
                        (c + 1) as nat,
                    ).0.seen.len() - 4 * data.openings@[c]@.len(),
                )
        }),
{
    let ghost seeds = data.seed_claim@;
    let ghost openings = data.openings@;
    let ghost n = openings.len();
    let mut points: Vec<u128> = Vec::new();
    let mut evals: Vec<Vec<u128>> = Vec::new();
    let mut i: usize = 0;
    while i < data.openings.len()
        invariant
            i <= n,
            n == openings.len(),
            seeds == data.seed_claim@,
            seeds.len() == n,
            openings == data.openings@,
            reference::opening_claims(d, seeds, openings, n).0.seen.len() <= usize::MAX,
            reference::opening_claims(d, seeds, openings, n).0.drawn.len() <= usize::MAX,
            ({
                let (e, us) = reference::opening_claims(d, seeds, openings, i as nat);
                &&& *s == e.seen.len()
                &&& *k == e.drawn.len()
                &&& extends(d, e)
                &&& stand(e.drawn, points@, us)
                &&& evals@.len() == i
                &&& forall|c: int|
                    0 <= c < evals@.len() ==> stand(
                        e.seen,
                        (#[trigger] evals@[c])@,
                        ext4::quads(openings[c]@),
                    )
            }),
            points@.len() == i,
            *k == d.drawn.len() + 4 * i,
            run_from(points@, d.drawn.len() as int),
            forall|c: int|
                0 <= c < evals@.len() ==> run_from(
                    (#[trigger] evals@[c])@,
                    reference::opening_claims(d, seeds, openings, (c + 1) as nat).0.seen.len() - 4
                        * openings[c]@.len(),
                ),
        decreases n - i,
    {
        let ghost (e, us) = reference::opening_claims(d, seeds, openings, i as nat);
        let ghost f = sponge::observed_all(e, seeds[i as int]@);
        let ghost (g, u) = sponge::sampled_quad(f);
        let ghost h = sponge::observed_quads(g, openings[i as int]@);
        let ghost vals = ext4::quads(openings[i as int]@);
        proof {
            log::log_observed_all(e, seeds[i as int]@);
            log::log_sampled_quad(f);
            log::log_observed_quads(g, openings[i as int]@);
            log::log_claims(d, seeds, openings, (i + 1) as nat, n);
            script::lemma_spread_len(seq![u]);
            script::lemma_spread_len(vals);
            assert(h == reference::opening_claims(d, seeds, openings, (i + 1) as nat).0);
        }
        let _skip = take(s, data.seed_claim[i].len());
        let p = take(k, 4);
        let list = place_list(data.openings[i].len(), s, Ghost(g.seen), Ghost(vals));
        proof {
            log::lemma_stand_push(e.drawn, h.drawn, points@, us, p, u);
            assert forall|c: int| 0 <= c < evals@.len() implies stand(
                h.seen,
                (#[trigger] evals@[c])@,
                ext4::quads(openings[c]@),
            ) by {
                log::lemma_stand(e.seen, h.seen, evals@[c]@, ext4::quads(openings[c]@));
            }
        }
        points.push(p);
        evals.push(list);
        i = i + 1;
    }
    (points, evals)
}

/// A sumcheck's messages and challenges.
fn place_sumcheck(
    rounds: &Vec<SumcheckRoundData>,
    s: &mut usize,
    k: &mut usize,
    Ghost(d): Ghost<Duplex>,
) -> (r: (Vec<(u128, u128)>, Vec<u128>))
    requires
        *old(s) == d.seen.len(),
        *old(k) == d.drawn.len(),
        reference::sumchecks(d, rounds@, 0, rounds@.len()).0.seen.len() <= usize::MAX,
        reference::sumchecks(d, rounds@, 0, rounds@.len()).0.drawn.len() <= usize::MAX,
    ensures
        ({
            let (e, challenges, _) = reference::sumchecks(d, rounds@, 0, rounds@.len());
            &&& *final(s) == e.seen.len()
            &&& *final(k) == e.drawn.len()
            &&& extends(d, e)
            &&& pairs_stand(e.seen, r.0@, verify::polys(rounds@))
            &&& stand(e.drawn, r.1@, challenges)
        }),
        pairs_from(r.0@, d.seen.len() as int),
        run_from(r.1@, d.drawn.len() as int),
{
    let ghost rs = rounds@;
    let ghost n = rs.len();
    let ghost polys = verify::polys(rs);
    let mut messages: Vec<(u128, u128)> = Vec::new();
    let mut folds: Vec<u128> = Vec::new();
    let mut i: usize = 0;
    while i < rounds.len()
        invariant
            i <= n,
            rs == rounds@,
            n == rs.len(),
            polys == verify::polys(rs),
            reference::sumchecks(d, rs, 0, n).0.seen.len() <= usize::MAX,
            reference::sumchecks(d, rs, 0, n).0.drawn.len() <= usize::MAX,
            ({
                let (e, us, _) = reference::sumchecks(d, rs, 0, i as nat);
                &&& *s == e.seen.len()
                &&& *k == e.drawn.len()
                &&& extends(d, e)
                &&& pairs_stand(e.seen, messages@, polys.take(i as int))
                &&& stand(e.drawn, folds@, us)
            }),
            messages@.len() == i,
            folds@.len() == i,
            *s == d.seen.len() + 8 * i,
            *k == d.drawn.len() + 4 * i,
            pairs_from(messages@, d.seen.len() as int),
            run_from(folds@, d.drawn.len() as int),
        decreases n - i,
    {
        let ghost (e, us, _ok) = reference::sumchecks(d, rs, 0, i as nat);
        let ghost (c0, c_inf) = (rs[i as int].poly@[0]@, rs[i as int].poly@[1]@);
        let ghost f = sponge::observed_quad(e, c0);
        let ghost g = sponge::observed_quad(f, c_inf);
        let ghost (h, u) = sponge::sampled_quad(g);
        proof {
            log::log_observed_quad(e, c0);
            log::log_observed_quad(f, c_inf);
            log::log_sampled_quad(g);
            log::log_sumchecks(d, rs, (i + 1) as nat, n);
            script::lemma_spread_len(seq![u]);
            script::lemma_spread_len(seq![ext4::quad(c0)]);
            script::lemma_spread_len(seq![ext4::quad(c_inf)]);
            assert(h == reference::sumchecks(d, rs, 0, (i + 1) as nat).0);
        }
        let a = take(s, 4);
        let b = take(s, 4);
        let p = take(k, 4);
        proof {
            log::lemma_stand_push(e.drawn, h.drawn, folds@, us, p, u);
            log::lemma_pairs_stand(e.seen, h.seen, messages@, polys.take(i as int));
            log::lemma_quad_prefix(f.seen, h.seen, a as int);
            let more = messages@.push((a, b));
            let want = polys.take(i + 1);
            assert forall|j: int| 0 <= j < more.len() implies ({
                &&& (#[trigger] more[j]).0 + 4 <= h.seen.len()
                &&& more[j].1 + 4 <= h.seen.len()
                &&& quad_at(h.seen, more[j].0 as int) == want[j].0
                &&& quad_at(h.seen, more[j].1 as int) == want[j].1
            }) by {
                if j < i {
                    assert(more[j] == messages@[j]);
                    assert(want[j] == polys.take(i as int)[j]);
                }
            }
        }
        messages.push((a, b));
        folds.push(p);
        i = i + 1;
    }
    assert(polys.take(i as int) =~= polys);
    (messages, folds)
}

/// A round's out-of-domain points and answers.
fn place_ood(
    answers: &Vec<[u32; 4]>,
    s: &mut usize,
    k: &mut usize,
    Ghost(d): Ghost<Duplex>,
) -> (r: (Vec<u128>, Vec<u128>))
    requires
        *old(s) == d.seen.len(),
        *old(k) == d.drawn.len(),
        reference::ood_samples(d, answers@, answers@.len()).0.seen.len() <= usize::MAX,
        reference::ood_samples(d, answers@, answers@.len()).0.drawn.len() <= usize::MAX,
    ensures
        ({
            let (e, points) = reference::ood_samples(d, answers@, answers@.len());
            &&& *final(s) == e.seen.len()
            &&& *final(k) == e.drawn.len()
            &&& extends(d, e)
            &&& stand(e.drawn, r.0@, points)
            &&& stand(e.seen, r.1@, ext4::quads(answers@))
        }),
        run_from(r.0@, d.drawn.len() as int),
        run_from(r.1@, d.seen.len() as int),
{
    let ghost all = answers@;
    let ghost n = all.len();
    let ghost vals = ext4::quads(all);
    let mut points: Vec<u128> = Vec::new();
    let mut places: Vec<u128> = Vec::new();
    let mut i: usize = 0;
    while i < answers.len()
        invariant
            i <= n,
            all == answers@,
            n == all.len(),
            vals == ext4::quads(all),
            reference::ood_samples(d, all, n).0.seen.len() <= usize::MAX,
            reference::ood_samples(d, all, n).0.drawn.len() <= usize::MAX,
            ({
                let (e, us) = reference::ood_samples(d, all, i as nat);
                &&& *s == e.seen.len()
                &&& *k == e.drawn.len()
                &&& extends(d, e)
                &&& stand(e.drawn, points@, us)
                &&& stand(e.seen, places@, vals.take(i as int))
            }),
            points@.len() == i,
            places@.len() == i,
            *s == d.seen.len() + 4 * i,
            *k == d.drawn.len() + 4 * i,
            run_from(points@, d.drawn.len() as int),
            run_from(places@, d.seen.len() as int),
        decreases n - i,
    {
        let ghost (e, us) = reference::ood_samples(d, all, i as nat);
        let ghost (g, u) = sponge::sampled_quad(e);
        let ghost h = sponge::observed_quad(g, all[i as int]@);
        proof {
            log::log_sampled_quad(e);
            log::log_observed_quad(g, all[i as int]@);
            log::log_ood(d, all, (i + 1) as nat, n);
            script::lemma_spread_len(seq![u]);
            script::lemma_spread_len(seq![ext4::quad(all[i as int]@)]);
            assert(h == reference::ood_samples(d, all, (i + 1) as nat).0);
        }
        let p = take(k, 4);
        let a = take(s, 4);
        proof {
            log::lemma_stand_push(e.drawn, h.drawn, points@, us, p, u);
            log::lemma_stand_push(e.seen, h.seen, places@, vals.take(i as int), a, vals[i as int]);
            assert(vals.take(i as int).push(vals[i as int]) =~= vals.take(i + 1));
        }
        points.push(p);
        places.push(a);
        i = i + 1;
    }
    assert(vals.take(i as int) =~= vals);
    (points, places)
}

/// The kept entries one query block consumed: the queries replayed on the recorded
/// samples, since a sample at or above the rejection threshold costs a further one.
fn draw_block(
    samples: &[u32],
    k: &mut usize,
    bits: usize,
    num_queries: usize,
    Ghost(d): Ghost<Duplex>,
) -> (r: Vec<u128>)
    requires
        sponge::wf(d),
        *old(k) == d.drawn.len(),
        log::checkable(bits as nat),
        !reference::queries(d, bits as nat, num_queries as nat).0.stuck,
        prefix(
            reference::queries(d, bits as nat, num_queries as nat).0.drawn,
            permutation::ints(samples@),
        ),
    ensures
        ({
            let (e, qs) = reference::queries(d, bits as nat, num_queries as nat);
            &&& *final(k) == e.drawn.len()
            &&& draws_stand(e.drawn, r@, bits as nat, num_queries as nat, qs)
        }),
        block_from(r@, d.drawn.len() as int),
{
    let ghost (e, qs) = reference::queries(d, bits as nat, num_queries as nat);
    let ghost b = bits as nat;
    let ghost n = num_queries as nat;
    let mut entries: Vec<u128> = Vec::new();
    proof {
        log::log_queries(d, b, n);
    }
    let size = sponge::two_to_u32(bits);
    if num_queries as u128 >= size as u128 {
        return entries;
    }
    let m = sponge::threshold_of(bits);
    let ghost lo = d.drawn.len() as int;
    let mut accepted: usize = 0;
    while accepted < num_queries
        invariant
            accepted <= num_queries,
            n == num_queries,
            m == sponge::threshold(b),
            lo <= *k <= e.drawn.len(),
            0 <= lo,
            prefix(e.drawn, permutation::ints(samples@)),
            accepted == log::block(e.drawn, b, lo, *k as int).len(),
            log::block(e.drawn, b, lo, e.drawn.len() as int) == qs,
            qs.len() == n,
            forall|x: int|
                lo <= x < e.drawn.len() ==> (#[trigger] log::block(e.drawn, b, lo, x)).len() < n,
            entries@.len() == *k - lo,
            forall|i: int| 0 <= i < entries@.len() ==> #[trigger] entries@[i] == lo + i,
        decreases e.drawn.len() - *k,
    {
        assert(*k < e.drawn.len());
        assert(e.drawn[*k as int] == permutation::ints(samples@)[*k as int]);
        let v = samples[*k];
        entries.push(*k as u128);
        *k = *k + 1;
        if v < m {
            accepted = accepted + 1;
        }
    }
    assert(*k == e.drawn.len());
    entries
}

/// One intermediate round.
fn place_round(
    rc: &RoundConfig,
    rd: &RoundData,
    samples: &[u32],
    s: &mut usize,
    k: &mut usize,
    Ghost(d): Ghost<Duplex>,
) -> (r: RoundLayout)
    requires
        sponge::wf(d),
        log::workless(*rc),
        *old(s) == d.seen.len(),
        *old(k) == d.drawn.len(),
        !reference::round(d, *rc, *rd).0.stuck,
        reference::round(d, *rc, *rd).0.seen.len() <= usize::MAX,
        prefix(reference::round(d, *rc, *rd).0.drawn, permutation::ints(samples@)),
    ensures
        ({
            let (e, draws) = reference::round(d, *rc, *rd);
            &&& *final(s) == e.seen.len()
            &&& *final(k) == e.drawn.len()
            &&& extends(d, e)
            &&& round_placed(r, *rc, *rd, draws, e.seen, e.drawn)
        }),
        round_located(r, *rc, *rd, d),
{
    let ghost (e, draws) = reference::round(d, *rc, *rd);
    let ghost a = sponge::observed_all(d, rd.root@);
    let ghost (b, points) = reference::ood_samples(a, rd.ood_answers@, rd.ood_answers@.len());
    let ghost (bits, n) = (rc.domain_bits as nat, rc.num_queries as nat);
    let ghost (g, qs) = reference::queries(b, bits, n);
    let ghost (h, combination) = sponge::sampled_quad(g);
    let ghost i = sponge::observed_all(h, rd.seed_sumcheck@);
    assert(samples.len() == samples@.len());
    proof {
        log::log_observed_all(d, rd.root@);
        sponge::lemma_observed_all(d, rd.root@);
        reference::lemma_ood(a, rd.ood_answers@, rd.ood_answers@.len());
        log::log_ood(a, rd.ood_answers@, 0, rd.ood_answers@.len());
        reference::law_queries_in_range(b, bits, n);
        sponge::lemma_sampled_quad(g);
        log::log_sampled_quad(g);
        sponge::lemma_observed_all(h, rd.seed_sumcheck@);
        log::log_observed_all(h, rd.seed_sumcheck@);
        reference::lemma_sumchecks(i, rd.sumcheck@, 0, rd.sumcheck@.len());
        log::log_sumchecks(i, rd.sumcheck@, 0, rd.sumcheck@.len());
        log::log_queries(b, bits, n);
        script::lemma_spread_len(seq![combination]);
        assert(e == reference::sumchecks(i, rd.sumcheck@, 0, rd.sumcheck@.len()).0);
    }
    let root = take(s, rd.root.len());
    let (k_ood, ood_answers) = place_ood(&rd.ood_answers, s, k, Ghost(a));
    let k_draws = draw_block(samples, k, rc.domain_bits, rc.num_queries, Ghost(b));
    let k_combination = take(k, 4);
    let _skip = take(s, rd.seed_sumcheck.len());
    let (sumcheck, k_fold) = place_sumcheck(&rd.sumcheck, s, k, Ghost(i));
    proof {
        let words = permutation::ints(rd.root@);
        assert(a.seen.subrange(root as int, root + words.len()) =~= words);
        assert(prefix(a.seen, e.seen));
        assert(prefix(b.drawn, e.drawn) && prefix(b.seen, e.seen));
        assert(prefix(g.drawn, e.drawn) && prefix(h.drawn, e.drawn));
        lemma_words(a.seen, e.seen, root as int, words);
        log::lemma_stand(b.drawn, e.drawn, k_ood@, points);
        log::lemma_stand(b.seen, e.seen, ood_answers@, ext4::quads(rd.ood_answers@));
        lemma_draws(g.drawn, e.drawn, k_draws@, bits, n, qs);
        log::lemma_quad_prefix(h.drawn, e.drawn, k_combination as int);
    }
    RoundLayout { root, ood_answers, sumcheck, k_ood, k_draws, k_combination, k_fold }
}

/// Rounds without proof of work, and draws a script can check.
pub open spec fn workless(cfg: TranscriptConfig) -> bool {
    &&& cfg.initial_folding_pow_bits == 0
    &&& cfg.final_pow_bits == 0
    &&& cfg.final_folding_pow_bits == 0
    &&& log::checkable(cfg.final_domain_bits as nat)
    &&& forall|i: int| 0 <= i < cfg.rounds@.len() ==> log::workless(#[trigger] cfg.rounds@[i])
}

/// The intermediate rounds.
fn place_rounds(
    cfg: &TranscriptConfig,
    data: &TranscriptData,
    samples: &[u32],
    s: &mut usize,
    k: &mut usize,
    Ghost(d): Ghost<Duplex>,
) -> (r: Vec<RoundLayout>)
    requires
        sponge::wf(d),
        workless(*cfg),
        data.rounds@.len() == cfg.rounds@.len(),
        *old(s) == d.seen.len(),
        *old(k) == d.drawn.len(),
        !reference::rounds(d, cfg.rounds@, data.rounds@, cfg.rounds@.len()).0.stuck,
        reference::rounds(d, cfg.rounds@, data.rounds@, cfg.rounds@.len()).0.seen.len()
            <= usize::MAX,
        prefix(
            reference::rounds(d, cfg.rounds@, data.rounds@, cfg.rounds@.len()).0.drawn,
            permutation::ints(samples@),
        ),
    ensures
        ({
            let (e, draws, _) = reference::rounds(
                d,
                cfg.rounds@,
                data.rounds@,
                cfg.rounds@.len(),
            );
            &&& *final(s) == e.seen.len()
            &&& *final(k) == e.drawn.len()
            &&& extends(d, e)
            &&& r@.len() == cfg.rounds@.len()
            &&& forall|i: int|
                0 <= i < r@.len() ==> round_placed(
                    #[trigger] r@[i],
                    cfg.rounds@[i],
                    data.rounds@[i],
                    draws[i],
                    e.seen,
                    e.drawn,
                )
        }),
        forall|i: int|
            0 <= i < r@.len() ==> round_located(
                #[trigger] r@[i],
                cfg.rounds@[i],
                data.rounds@[i],
                reference::rounds(d, cfg.rounds@, data.rounds@, i as nat).0,
            ),
{
    let ghost (cfgs, rds) = (cfg.rounds@, data.rounds@);
    let ghost n = cfgs.len();
    let mut out: Vec<RoundLayout> = Vec::new();
    while out.len() < cfg.rounds.len()
        invariant
            out@.len() <= n,
            cfgs == cfg.rounds@,
            rds == data.rounds@,
            n == cfgs.len(),
            rds.len() == n,
            sponge::wf(d),
            forall|i: int| 0 <= i < n ==> log::workless(#[trigger] cfgs[i]),
            !reference::rounds(d, cfgs, rds, n).0.stuck,
            reference::rounds(d, cfgs, rds, n).0.seen.len() <= usize::MAX,
            prefix(reference::rounds(d, cfgs, rds, n).0.drawn, permutation::ints(samples@)),
            ({
                let (e, draws, _) = reference::rounds(d, cfgs, rds, out@.len());
                &&& *s == e.seen.len()
                &&& *k == e.drawn.len()
                &&& extends(d, e)
                &&& draws.len() == out@.len()
                &&& forall|i: int|
                    0 <= i < out@.len() ==> round_placed(
                        #[trigger] out@[i],
                        cfgs[i],
                        rds[i],
                        draws[i],
                        e.seen,
                        e.drawn,
                    )
            }),
            forall|i: int|
                0 <= i < out@.len() ==> round_located(
                    #[trigger] out@[i],
                    cfgs[i],
                    rds[i],
                    reference::rounds(d, cfgs, rds, i as nat).0,
                ),
        decreases n - out@.len(),
    {
        let i = out.len();
        let ghost (e, draws, _) = reference::rounds(d, cfgs, rds, i as nat);
        let ghost (f, r) = reference::round(e, cfgs[i as int], rds[i as int]);
        proof {
            reference::lemma_rounds(d, cfgs, rds, i as nat, n);
            reference::lemma_rounds(d, cfgs, rds, (i + 1) as nat, n);
            reference::lemma_rounds(d, cfgs, rds, 0, i as nat);
            log::log_rounds(d, cfgs, rds, (i + 1) as nat, n);
            assert(f == reference::rounds(d, cfgs, rds, (i + 1) as nat).0);
            assert(log::workless(cfgs[i as int]));
        }
        let l = place_round(&cfg.rounds[i], &data.rounds[i], samples, s, k, Ghost(e));
        proof {
            let more = reference::rounds(d, cfgs, rds, (i + 1) as nat).1;
            assert forall|j: int| 0 <= j < i implies round_placed(
                #[trigger] out@[j],
                cfgs[j],
                rds[j],
                more[j],
                f.seen,
                f.drawn,
            ) by {
                lemma_round_placed(
                    out@[j],
                    cfgs[j],
                    rds[j],
                    draws[j],
                    e.seen,
                    f.seen,
                    e.drawn,
                    f.drawn,
                );
            }
        }
        out.push(l);
    }
    out
}

/// What the transcript logs up to the rounds and after them.
proof fn lemma_phases(cfg: TranscriptConfig, data: TranscriptData, d: Duplex)
    requires
        sponge::wf(d),
        workless(cfg),
        reference::fits(cfg, data),
        !reference::run(cfg, data, d).0.stuck,
    ensures
        ({
            let end = reference::run(cfg, data, d).0;
            let start = sponge::observed_all(
                sponge::observed_all(d, data.seed_commitment@),
                data.root@,
            );
            let e = reference::virtual_claims(
                start,
                data.seed_virtual@,
                data.initial_ood_answers@,
                data.initial_ood_answers@.len(),
            ).0;
            let f = reference::opening_claims(
                e,
                data.seed_claim@,
                data.openings@,
                data.openings@.len(),
            ).0;
            let g0 = sponge::observed_all(
                sponge::observed_all(f, data.seed_whir@),
                data.seed_batching@,
            );
            let g = sponge::sampled_quad(g0).0;
            let h0 = sponge::observed_all(g, data.seed_initial_sumcheck@);
            let h = reference::sumchecks(
                h0,
                data.initial_sumcheck@,
                0,
                data.initial_sumcheck@.len(),
            ).0;
            let i = reference::rounds(h, cfg.rounds@, data.rounds@, cfg.rounds@.len()).0;
            let j0 = sponge::observed_quads(i, data.final_poly@);
            let (bits, n) = (cfg.final_domain_bits as nat, cfg.final_queries as nat);
            let j = reference::queries(j0, bits, n).0;
            let l = sponge::observed_all(j, data.seed_final_sumcheck@);
            &&& extends(d, start) && extends(start, e) && extends(e, f) && extends(f, g)
            &&& extends(g, h0) && extends(h0, h) && extends(h, i) && extends(i, j0)
            &&& extends(j0, j) && extends(j, l) && extends(l, end)
            &&& sponge::wf(h) && sponge::wf(i) && sponge::wf(j0)
            &&& !i.stuck && !j.stuck
            &&& end == reference::sumchecks(
                l,
                data.final_sumcheck@,
                0,
                data.final_sumcheck@.len(),
            ).0
            &&& reference::run(cfg, data, d).1.pow_ok
        }),
{
    let s0 = sponge::observed_all(d, data.seed_commitment@);
    let start = sponge::observed_all(s0, data.root@);
    sponge::lemma_observed_all(d, data.seed_commitment@);
    sponge::lemma_observed_all(s0, data.root@);
    log::log_observed_all(d, data.seed_commitment@);
    log::log_observed_all(s0, data.root@);
    let (seeds, answers) = (data.seed_virtual@, data.initial_ood_answers@);
    reference::lemma_virtual(start, seeds, answers, answers.len());
    log::log_virtual(start, seeds, answers, 0, answers.len());
    let e = reference::virtual_claims(start, seeds, answers, answers.len()).0;
    reference::lemma_claims(e, data.seed_claim@, data.openings@, data.openings@.len());
    log::log_claims(e, data.seed_claim@, data.openings@, 0, data.openings@.len());
    let f = reference::opening_claims(
        e,
        data.seed_claim@,
        data.openings@,
        data.openings@.len(),
    ).0;
    let f0 = sponge::observed_all(f, data.seed_whir@);
    let g0 = sponge::observed_all(f0, data.seed_batching@);
    sponge::lemma_observed_all(f, data.seed_whir@);
    sponge::lemma_observed_all(f0, data.seed_batching@);
    log::log_observed_all(f, data.seed_whir@);
    log::log_observed_all(f0, data.seed_batching@);
    sponge::lemma_sampled_quad(g0);
    log::log_sampled_quad(g0);
    let g = sponge::sampled_quad(g0).0;
    let h0 = sponge::observed_all(g, data.seed_initial_sumcheck@);
    sponge::lemma_observed_all(g, data.seed_initial_sumcheck@);
    log::log_observed_all(g, data.seed_initial_sumcheck@);
    let first = data.initial_sumcheck@;
    reference::lemma_sumchecks(h0, first, 0, first.len());
    log::log_sumchecks(h0, first, 0, first.len());
    let h = reference::sumchecks(h0, first, 0, first.len()).0;
    let (cfgs, rds) = (cfg.rounds@, data.rounds@);
    let n = cfgs.len();
    let i = reference::rounds(h, cfgs, rds, n).0;
    reference::lemma_rounds(h, cfgs, rds, 0, n);
    let j0 = sponge::observed_quads(i, data.final_poly@);
    sponge::lemma_observed_quads(i, data.final_poly@);
    log::log_observed_quads(i, data.final_poly@);
    let (bits, m) = (cfg.final_domain_bits as nat, cfg.final_queries as nat);
    reference::law_queries_in_range(j0, bits, m);
    let j = reference::queries(j0, bits, m).0;
    let l = sponge::observed_all(j, data.seed_final_sumcheck@);
    sponge::lemma_observed_all(j, data.seed_final_sumcheck@);
    log::log_observed_all(j, data.seed_final_sumcheck@);
    let last = data.final_sumcheck@;
    reference::lemma_sumchecks(l, last, 0, last.len());
    log::log_sumchecks(l, last, 0, last.len());
    log::log_rounds(h, cfgs, rds, 0, n);
    log::log_queries(j0, bits, m);
}

/// Every round of a transcript without a failed proof of work is without one.
proof fn lemma_rounds_worked(d: Duplex, cfgs: Seq<RoundConfig>, data: Seq<RoundData>, k: nat)
    ensures
        ({
            let (_, rs, ok) = reference::rounds(d, cfgs, data, k);
            &&& rs.len() == k
            &&& ok ==> forall|i: int| 0 <= i < k ==> (#[trigger] rs[i]).pow_ok
        }),
    decreases k,
{
    if k > 0 {
        lemma_rounds_worked(d, cfgs, data, (k - 1) as nat);
    }
}

/// The transcript's layout, walked in the order the transcript runs.
#[verifier::rlimit(40)]
pub(crate) fn layout(
    cfg: &TranscriptConfig,
    data: &TranscriptData,
    samples: &[u32],
) -> (l: Layout)
    requires
        workless(*cfg),
        reference::fits(*cfg, *data),
        ({
            let end = reference::run(*cfg, *data, sponge::fresh()).0;
            &&& !end.stuck
            &&& end.seen.len() <= usize::MAX
            &&& end.drawn == permutation::ints(samples@)
        }),
    ensures
        ({
            let (end, ch) = reference::run(*cfg, *data, sponge::fresh());
            &&& placed(l, *cfg, *data, ch, end.seen, end.drawn)
            &&& located(l, *cfg, *data, sponge::fresh())
            &&& ch.pow_ok
            &&& ch.rounds.len() == cfg.rounds@.len()
            &&& forall|i: int| 0 <= i < ch.rounds.len() ==> (#[trigger] ch.rounds[i]).pow_ok
        }),
{
    let ghost d = sponge::fresh();
    let ghost (end, ch) = reference::run(*cfg, *data, d);
    let ghost s0 = sponge::observed_all(d, data.seed_commitment@);
    let ghost start = sponge::observed_all(s0, data.root@);
    let ghost e = reference::virtual_claims(
        start,
        data.seed_virtual@,
        data.initial_ood_answers@,
        data.initial_ood_answers@.len(),
    ).0;
    let ghost f = reference::opening_claims(
        e,
        data.seed_claim@,
        data.openings@,
        data.openings@.len(),
    ).0;
    let ghost f0 = sponge::observed_all(f, data.seed_whir@);
    let ghost g0 = sponge::observed_all(f0, data.seed_batching@);
    let ghost g = sponge::sampled_quad(g0).0;
    let ghost h0 = sponge::observed_all(g, data.seed_initial_sumcheck@);
    let ghost h = reference::sumchecks(
        h0,
        data.initial_sumcheck@,
        0,
        data.initial_sumcheck@.len(),
    ).0;
    let ghost i = reference::rounds(h, cfg.rounds@, data.rounds@, cfg.rounds@.len()).0;
    let ghost j0 = sponge::observed_quads(i, data.final_poly@);
    let ghost (bits, n) = (cfg.final_domain_bits as nat, cfg.final_queries as nat);
    let ghost j = reference::queries(j0, bits, n).0;
    let ghost m = sponge::observed_all(j, data.seed_final_sumcheck@);
    assert(samples.len() == samples@.len());
    proof {
        assert(sponge::wf(d)) by {
            assert(d.output =~= d.state.take(0));
        }
        lemma_phases(*cfg, *data, d);
        lemma_rounds_worked(h, cfg.rounds@, data.rounds@, cfg.rounds@.len());
        log::log_observed_all(d, data.seed_commitment@);
        log::log_observed_all(s0, data.root@);
        log::log_observed_all(f, data.seed_whir@);
        log::log_observed_all(f0, data.seed_batching@);
        log::log_sampled_quad(g0);
        log::log_observed_all(g, data.seed_initial_sumcheck@);
        log::log_observed_quads(i, data.final_poly@);
        log::log_queries(j0, bits, n);
        log::log_observed_all(j, data.seed_final_sumcheck@);
        script::lemma_spread_len(ext4::quads(data.final_poly@));
        script::lemma_spread_len(seq![sponge::sampled_quad(g0).1]);
    }
    let mut s: usize = data.seed_commitment.len();
    let mut k: usize = 0;
    let root = take(&mut s, data.root.len());
    let (k_ood, ood_answers) = place_virtual(data, &mut s, &mut k, Ghost(start));
    let (k_claim, evals) = place_claims(data, &mut s, &mut k, Ghost(e));
    let _whir = take(&mut s, data.seed_whir.len());
    let _batching = take(&mut s, data.seed_batching.len());
    let k_alpha = take(&mut k, 4);
    let _initial = take(&mut s, data.seed_initial_sumcheck.len());
    let (initial_sumcheck, k_initial_fold) = place_sumcheck(
        &data.initial_sumcheck,
        &mut s,
        &mut k,
        Ghost(h0),
    );
    let rounds = place_rounds(cfg, data, samples, &mut s, &mut k, Ghost(h));
    let count = data.final_poly.len();
    assert(4 * count <= end.seen.len());
    let final_poly = take(&mut s, 4 * count);
    let k_final_draws = draw_block(
        samples,
        &mut k,
        cfg.final_domain_bits,
        cfg.final_queries,
        Ghost(j0),
    );
    let _final = take(&mut s, data.seed_final_sumcheck.len());
    let (final_sumcheck, k_final_fold) = place_sumcheck(
        &data.final_sumcheck,
        &mut s,
        &mut k,
        Ghost(m),
    );
    let l = Layout {
        root,
        ood_answers,
        evals,
        initial_sumcheck,
        rounds,
        final_poly,
        final_sumcheck,
        k_ood,
        k_claim,
        k_alpha,
        k_initial_fold,
        k_final_draws,
        k_final_fold,
    };
    proof {
        let words = permutation::ints(data.root@);
        assert(start.seen.subrange(root as int, root + words.len()) =~= words);
        let finals = script::spread(ext4::quads(data.final_poly@));
        assert(j0.seen.subrange(final_poly as int, final_poly + finals.len()) =~= finals);
        assert(extends(start, end) && extends(e, end) && extends(f, end) && extends(g, end)
            && extends(h, end) && extends(i, end) && extends(j0, end) && extends(j, end));
        lemma_words(start.seen, end.seen, root as int, words);
        log::lemma_stand(e.seen, end.seen, l.ood_answers@, ext4::quads(data.initial_ood_answers@));
        log::lemma_stand(e.drawn, end.drawn, l.k_ood@, ch.initial_ood_points);
        log::lemma_stand(f.drawn, end.drawn, l.k_claim@, ch.opening_points);
        assert forall|c: int| 0 <= c < l.evals@.len() implies stand(
            end.seen,
            (#[trigger] l.evals@[c])@,
            ext4::quads(data.openings@[c]@),
        ) by {
            log::lemma_stand(f.seen, end.seen, l.evals@[c]@, ext4::quads(data.openings@[c]@));
        }
        log::lemma_quad_prefix(g.drawn, end.drawn, k_alpha as int);
        log::lemma_pairs_stand(
            h.seen,
            end.seen,
            l.initial_sumcheck@,
            verify::polys(data.initial_sumcheck@),
        );
        log::lemma_stand(h.drawn, end.drawn, l.k_initial_fold@, ch.initial_folding);
        assert forall|c: int| 0 <= c < l.rounds@.len() implies round_placed(
            #[trigger] l.rounds@[c],
            cfg.rounds@[c],
            data.rounds@[c],
            ch.rounds[c],
            end.seen,
            end.drawn,
        ) by {
            lemma_round_placed(
                l.rounds@[c],
                cfg.rounds@[c],
                data.rounds@[c],
                ch.rounds[c],
                i.seen,
                end.seen,
                i.drawn,
                end.drawn,
            );
        }
        lemma_words(j0.seen, end.seen, final_poly as int, finals);
        lemma_draws(j.drawn, end.drawn, l.k_final_draws@, bits, n, ch.final_queries);
    }
    l
}

} // verus!

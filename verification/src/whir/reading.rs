//! What a script reads in its data.
//!
//! The places are fixed when the script is built; the data is any list of field
//! elements.
use super::layout::{first_of, Layout, RoundLayout};
use super::log;
use super::pruned::Poseidon2Tree;
use super::reference::{Draws, RoundConfig, RoundDraws, TranscriptConfig};
use super::script::quad_at;
use super::sponge;
use super::sponge::Duplex;
use super::symbols;
use super::symbols::{Cond, Sym, Val};
use crate::merkle;
use crate::poseidon2::ext4;
use crate::poseidon2::ext4::Quad;
use crate::poseidon2::reference as permutation;
use vstd::arithmetic::power2::pow2;
use vstd::prelude::*;

verus! {

/// The `n` elements from `at`.
pub open spec fn words(u: Seq<int>, at: int, n: nat) -> Seq<int> {
    Seq::new(n, |i: int| u[at + i])
}

/// The extension elements at places.
pub open spec fn quads(u: Seq<int>, places: Seq<u128>) -> Seq<Quad> {
    Seq::new(places.len(), |j: int| quad_at(u, places[j] as int))
}

/// The pairs of extension elements at pairs of places.
pub open spec fn pairs(u: Seq<int>, places: Seq<(u128, u128)>) -> Seq<(Quad, Quad)> {
    Seq::new(
        places.len(),
        |j: int| (quad_at(u, places[j].0 as int), quad_at(u, places[j].1 as int)),
    )
}

/// The `n` extension elements from `at`.
pub open spec fn list(u: Seq<int>, at: int, n: nat) -> Seq<Quad> {
    Seq::new(n, |j: int| quad_at(u, at + 4 * j))
}

/// The siblings of a path that lies at `at` top level first, level 0 first.
pub open spec fn siblings(u: Seq<int>, at: int, depth: nat) -> Seq<Seq<int>> {
    Seq::new(depth, |l: int| words(u, at + 8 * (depth - 1 - l), 8))
}

/// The row after the path at `at` reaches the root at `root` from its index.
pub open spec fn reaches(
    u: Seq<int>,
    root: int,
    at: int,
    depth: nat,
    len: nat,
    index: int,
) -> bool {
    merkle::climbed::<Poseidon2Tree>(
        index,
        permutation::row_digest(words(u, at + 8 * depth, len)),
        siblings(u, at, depth),
        depth,
    ) == words(u, root, 8)
}

/// A row as extension elements.
pub open spec fn row(u: Seq<int>, extension: bool, at: int, count: nat) -> Seq<Quad> {
    Seq::new(
        count,
        |j: int|
            if extension {
                quad_at(u, at + 4 * j)
            } else {
                ext4::lifted(u[at + j])
            },
    )
}

/// The draws of a block below the rejection threshold.
pub open spec fn kept(samples: Seq<int>, bits: nat, lo: int, hi: int) -> Seq<int>
    decreases hi - lo,
{
    if hi <= lo {
        Seq::empty()
    } else {
        let before = kept(samples, bits, lo, hi - 1);
        if samples[hi - 1] < sponge::threshold(bits) {
            before.push(hi - 1)
        } else {
            before
        }
    }
}

/// The positions that `samples` gives where `own` keeps a draw; every position
/// when the domain is no larger than the query count.
pub open spec fn positions(
    own: Seq<int>,
    samples: Seq<int>,
    bits: nat,
    num: nat,
    lo: int,
    hi: int,
) -> Seq<int> {
    if num >= pow2(bits) {
        Seq::new(pow2(bits), |i: int| i)
    } else {
        let es = kept(own, bits, lo, hi);
        Seq::new(es.len(), |j: int| samples[es[j]] % (pow2(bits) as int))
    }
}

/// `samples` keeps and rejects the draws that `own` does.
pub open spec fn same_draws(
    own: Seq<int>,
    samples: Seq<int>,
    bits: nat,
    num: nat,
    lo: int,
    hi: int,
) -> bool {
    num < pow2(bits) ==> forall|e: int|
        lo <= e < hi ==> (#[trigger] samples[e] < sponge::threshold(bits)) == (own[e]
            < sponge::threshold(bits))
}

/// The positions of a block of entries.
pub open spec fn block(
    own: Seq<int>,
    samples: Seq<int>,
    bits: nat,
    num: nat,
    entries: Seq<u128>,
) -> Seq<int> {
    let lo = first_of(entries);
    positions(own, samples, bits, num, lo, lo + entries.len())
}

/// A block of entries is kept and rejected as in `own`.
pub open spec fn same_block(
    own: Seq<int>,
    samples: Seq<int>,
    bits: nat,
    num: nat,
    entries: Seq<u128>,
) -> bool {
    let lo = first_of(entries);
    same_draws(own, samples, bits, num, lo, lo + entries.len())
}

/// A round's challenges among `samples`.
pub open spec fn round_draws(
    rc: RoundConfig,
    l: RoundLayout,
    own: Seq<int>,
    samples: Seq<int>,
) -> RoundDraws {
    RoundDraws {
        ood_points: quads(samples, l.k_ood@),
        queries: block(
            own,
            samples,
            rc.domain_bits as nat,
            rc.num_queries as nat,
            l.k_draws@,
        ),
        combination: quad_at(samples, l.k_combination as int),
        folding: quads(samples, l.k_fold@),
        pow_ok: true,
    }
}

/// The challenges among `samples`, the queries where `own` keeps a draw.
pub open spec fn draws(
    cfg: TranscriptConfig,
    l: Layout,
    own: Seq<int>,
    samples: Seq<int>,
) -> Draws {
    Draws {
        initial_ood_points: quads(samples, l.k_ood@),
        opening_points: quads(samples, l.k_claim@),
        alpha: quad_at(samples, l.k_alpha as int),
        initial_folding: quads(samples, l.k_initial_fold@),
        rounds: Seq::new(
            l.rounds@.len(),
            |i: int| round_draws(cfg.rounds@[i], l.rounds@[i], own, samples),
        ),
        final_queries: block(
            own,
            samples,
            cfg.final_domain_bits as nat,
            cfg.final_queries as nat,
            l.k_final_draws@,
        ),
        final_folding: quads(samples, l.k_final_fold@),
        pow_ok: true,
    }
}

/// What the transcript of `end` draws on other data.
pub open spec fn samples(end: Duplex, u: Seq<int>) -> Seq<int> {
    sponge::followed(end.calls, u).drawn
}

/// The base elements at places.
pub open spec fn bases(u: Seq<int>, places: Seq<u128>) -> Seq<int> {
    Seq::new(places.len(), |j: int| u[places[j] as int])
}

/// An extension element fits at every place.
pub open spec fn in_range(places: Seq<u128>, n: nat) -> bool {
    forall|j: int| 0 <= j < places.len() ==> (#[trigger] places[j]) + 4 <= n
}

/// The extension elements at places of a list are those of a longer one.
pub proof fn lemma_same_quads(s: Seq<int>, t: Seq<int>, places: Seq<u128>)
    requires
        in_range(places, s.len()),
        s.len() <= t.len(),
        forall|i: int| 0 <= i < s.len() ==> #[trigger] t[i] == s[i],
    ensures
        quads(t, places) == quads(s, places),
{
    assert forall|j: int| 0 <= j < places.len() implies quads(t, places)[j] == quads(s, places)[j] by {
        let e = places[j] as int;
        assert(places[j] + 4 <= s.len());
        assert(t[e] == s[e] && t[e + 1] == s[e + 1] && t[e + 2] == s[e + 2] && t[e + 3] == s[e + 3]);
    }
    assert(quads(t, places) =~= quads(s, places));
}

/// The kept draws give the positions.
pub proof fn lemma_kept(samples: Seq<int>, bits: nat, lo: int, hi: int)
    requires
        lo <= hi,
    ensures
        kept(samples, bits, lo, hi).len() == log::block(samples, bits, lo, hi).len(),
        forall|j: int|
            0 <= j < kept(samples, bits, lo, hi).len() ==> {
                &&& lo <= #[trigger] kept(samples, bits, lo, hi)[j] < hi
                &&& log::block(samples, bits, lo, hi)[j] == samples[kept(samples, bits, lo, hi)[j]]
                    % (pow2(bits) as int)
            },
    decreases hi - lo,
{
    if lo < hi {
        lemma_kept(samples, bits, lo, hi - 1);
    }
}

// ---------------------------------------------------------------------------
// The same on all data.
// ---------------------------------------------------------------------------

/// The indices the kept draws give.
pub open spec fn indices(
    k: Seq<Val>,
    own: Seq<int>,
    bits: nat,
    num: nat,
    lo: int,
    hi: int,
) -> Seq<Val> {
    if num >= pow2(bits) {
        Seq::new(pow2(bits), |i: int| symbols::constant(i))
    } else {
        let es = kept(own, bits, lo, hi);
        Seq::new(es.len(), |j: int| symbols::low(k[es[j]], bits))
    }
}

/// The data's draws are kept and rejected as `own` was.
pub open spec fn alike(
    k: Seq<Val>,
    own: Seq<int>,
    bits: nat,
    num: nat,
    lo: int,
    hi: int,
) -> Cond {
    |u: Seq<int>| same_draws(own, symbols::at(k, u), bits, num, lo, hi)
}

/// A row as extension elements.
pub open spec fn row_syms(extension: bool, at: int, count: nat) -> Seq<Sym> {
    Seq::new(
        count,
        |j: int|
            if extension {
                symbols::element(at + 4 * j)
            } else {
                symbols::lifted(symbols::datum(at + j))
            },
    )
}

/// The extension elements at places stand there.
pub proof fn lemma_picked(k: Seq<Val>, places: Seq<u128>, u: Seq<int>)
    requires
        in_range(places, k.len()),
    ensures
        symbols::stand(k, places, symbols::picked(k, places)),
        symbols::ats(symbols::picked(k, places), u) == quads(symbols::at(k, u), places),
{
    assert forall|j: int| 0 <= j < places.len() implies symbols::ats(
        symbols::picked(k, places),
        u,
    )[j] == quads(symbols::at(k, u), places)[j] by {
        assert(places[j] + 4 <= k.len());
    }
    assert(symbols::ats(symbols::picked(k, places), u) =~= quads(symbols::at(k, u), places));
}

/// Rows and their values.
pub proof fn lemma_row(extension: bool, at: int, count: nat, u: Seq<int>)
    ensures
        symbols::ats(row_syms(extension, at, count), u) == row(u, extension, at, count),
{
    assert(symbols::ats(row_syms(extension, at, count), u) =~= row(u, extension, at, count));
}

} // verus!

//! What a transcript leaves in the sponge's logs: every element it observed and
//! every element it sampled, in order.
use super::reference;
use super::reference::{RoundConfig, RoundData, SumcheckRoundData};
use super::script;
use super::script::quad_at;
use super::sponge;
use super::sponge::Duplex;
use crate::poseidon2::ext4;
use crate::poseidon2::ext4::Quad;
use crate::poseidon2::reference as permutation;
use vstd::arithmetic::power2::pow2;
use vstd::prelude::*;

verus! {

/// `b` starts with `a`.
pub open spec fn prefix(a: Seq<int>, b: Seq<int>) -> bool {
    &&& a.len() <= b.len()
    &&& forall|i: int| 0 <= i < a.len() ==> #[trigger] b[i] == a[i]
}

/// `e`'s logs start with `d`'s.
pub open spec fn extends(d: Duplex, e: Duplex) -> bool {
    &&& prefix(d.seen, e.seen)
    &&& prefix(d.drawn, e.drawn)
}

/// The extension elements `vals` stand at `entries` of `s`.
pub open spec fn stand(s: Seq<int>, entries: Seq<u128>, vals: Seq<Quad>) -> bool {
    &&& entries.len() == vals.len()
    &&& forall|i: int|
        0 <= i < entries.len() ==> (#[trigger] entries[i]) + 4 <= s.len() && quad_at(
            s,
            entries[i] as int,
        ) == vals[i]
}

/// Pairs of extension elements stand at pairs of entries.
pub open spec fn pairs_stand(s: Seq<int>, entries: Seq<(u128, u128)>, vals: Seq<(Quad, Quad)>) -> bool {
    &&& entries.len() == vals.len()
    &&& forall|i: int|
        0 <= i < entries.len() ==> {
            &&& (#[trigger] entries[i]).0 + 4 <= s.len()
            &&& entries[i].1 + 4 <= s.len()
            &&& quad_at(s, entries[i].0 as int) == vals[i].0
            &&& quad_at(s, entries[i].1 as int) == vals[i].1
        }
}

pub proof fn lemma_quad_prefix(s: Seq<int>, t: Seq<int>, i: int)
    requires
        prefix(s, t),
        0 <= i,
        i + 4 <= s.len(),
    ensures
        quad_at(t, i) == quad_at(s, i),
{
    assert(t[i] == s[i] && t[i + 1] == s[i + 1] && t[i + 2] == s[i + 2] && t[i + 3] == s[i + 3]);
}

/// What stands in a log stands in a longer one.
pub proof fn lemma_stand(s: Seq<int>, t: Seq<int>, entries: Seq<u128>, vals: Seq<Quad>)
    requires
        prefix(s, t),
        stand(s, entries, vals),
    ensures
        stand(t, entries, vals),
{
    assert forall|i: int| 0 <= i < entries.len() implies (#[trigger] entries[i]) + 4 <= t.len()
        && quad_at(t, entries[i] as int) == vals[i] by {
        lemma_quad_prefix(s, t, entries[i] as int);
    }
}

pub proof fn lemma_pairs_stand(
    s: Seq<int>,
    t: Seq<int>,
    entries: Seq<(u128, u128)>,
    vals: Seq<(Quad, Quad)>,
)
    requires
        prefix(s, t),
        pairs_stand(s, entries, vals),
    ensures
        pairs_stand(t, entries, vals),
{
    assert forall|i: int| 0 <= i < entries.len() implies ({
        &&& (#[trigger] entries[i]).0 + 4 <= t.len()
        &&& entries[i].1 + 4 <= t.len()
        &&& quad_at(t, entries[i].0 as int) == vals[i].0
        &&& quad_at(t, entries[i].1 as int) == vals[i].1
    }) by {
        lemma_quad_prefix(s, t, entries[i].0 as int);
        lemma_quad_prefix(s, t, entries[i].1 as int);
    }
}

pub proof fn lemma_stand_push(
    s: Seq<int>,
    t: Seq<int>,
    entries: Seq<u128>,
    vals: Seq<Quad>,
    e: u128,
    q: Quad,
)
    requires
        prefix(s, t),
        stand(s, entries, vals),
        e + 4 <= t.len(),
        quad_at(t, e as int) == q,
    ensures
        stand(t, entries.push(e), vals.push(q)),
{
    lemma_stand(s, t, entries, vals);
    assert forall|i: int| 0 <= i < entries.len() + 1 implies (#[trigger] entries.push(e)[i]) + 4
        <= t.len() && quad_at(t, entries.push(e)[i] as int) == vals.push(q)[i] by {
        if i < entries.len() {
            assert(entries.push(e)[i] == entries[i]);
        }
    }
}

// ---------------------------------------------------------------------------
// The logs of each phase.
// ---------------------------------------------------------------------------

pub proof fn log_observed_all(d: Duplex, vs: Seq<u32>)
    ensures
        sponge::observed_all(d, vs).seen == d.seen + permutation::ints(vs),
        sponge::observed_all(d, vs).drawn == d.drawn,
        extends(d, sponge::observed_all(d, vs)),
    decreases vs.len(),
{
    if vs.len() == 0 {
        assert(d.seen + permutation::ints(vs) =~= d.seen);
    } else {
        log_observed_all(d, vs.drop_last());
        assert(d.seen + permutation::ints(vs) =~= (d.seen + permutation::ints(
            vs.drop_last(),
        )).push(vs.last() as int));
    }
}

pub proof fn log_observed_quad(d: Duplex, x: Seq<u32>)
    ensures
        sponge::observed_quad(d, x).seen == d.seen + script::spread(seq![ext4::quad(x)]),
        sponge::observed_quad(d, x).drawn == d.drawn,
        extends(d, sponge::observed_quad(d, x)),
        quad_at(sponge::observed_quad(d, x).seen, d.seen.len() as int) == ext4::quad(x),
{
    let s = script::spread(seq![ext4::quad(x)]);
    script::lemma_one(ext4::quad(x));
    assert(s[0] == x[0] as int && s[1] == x[1] as int && s[2] == x[2] as int && s[3] == x[3] as int);
    assert(sponge::observed_quad(d, x).seen =~= d.seen + s);
}

pub proof fn log_observed_quads(d: Duplex, xs: Seq<[u32; 4]>)
    ensures
        sponge::observed_quads(d, xs).seen == d.seen + script::spread(ext4::quads(xs)),
        sponge::observed_quads(d, xs).drawn == d.drawn,
        extends(d, sponge::observed_quads(d, xs)),
    decreases xs.len(),
{
    if xs.len() == 0 {
        script::lemma_spread_len(ext4::quads(xs));
        assert(d.seen + script::spread(ext4::quads(xs)) =~= d.seen);
    } else {
        let ys = xs.drop_last();
        log_observed_quads(d, ys);
        log_observed_quad(sponge::observed_quads(d, ys), xs.last()@);
        let q = ext4::quad(xs.last()@);
        assert(ext4::quads(xs) =~= ext4::quads(ys).push(q));
        script::lemma_spread_push(ext4::quads(ys), q);
        assert(d.seen + script::spread(ext4::quads(xs)) =~= (d.seen + script::spread(
            ext4::quads(ys),
        )) + script::spread(seq![q]));
    }
}

pub proof fn log_sampled_quad(d: Duplex)
    ensures
        sponge::sampled_quad(d).0.drawn == d.drawn + script::spread(
            seq![sponge::sampled_quad(d).1],
        ),
        sponge::sampled_quad(d).0.seen == d.seen,
        extends(d, sponge::sampled_quad(d).0),
        quad_at(sponge::sampled_quad(d).0.drawn, d.drawn.len() as int) == sponge::sampled_quad(
            d,
        ).1,
{
    let (e, q) = sponge::sampled_quad(d);
    let s = script::spread(seq![q]);
    script::lemma_one(q);
    assert(s[0] == q.a && s[1] == q.b && s[2] == q.c && s[3] == q.d);
    assert(e.drawn =~= d.drawn + s);
}

pub proof fn log_virtual(
    d: Duplex,
    seeds: Seq<Vec<u32>>,
    answers: Seq<[u32; 4]>,
    k: nat,
    n: nat,
)
    requires
        k <= n,
    ensures
        extends(
            reference::virtual_claims(d, seeds, answers, k).0,
            reference::virtual_claims(d, seeds, answers, n).0,
        ),
        extends(d, reference::virtual_claims(d, seeds, answers, n).0),
    decreases n,
{
    if n > 0 {
        let m = (n - 1) as nat;
        log_virtual(
            d,
            seeds,
            answers,
            if k < n {
                k
            } else {
                m
            },
            m,
        );
        let e = reference::virtual_claims(d, seeds, answers, m).0;
        log_observed_all(e, seeds[n - 1]@);
        let f = sponge::observed_all(e, seeds[n - 1]@);
        log_sampled_quad(f);
        log_observed_quad(sponge::sampled_quad(f).0, answers[n - 1]@);
    }
}

pub proof fn log_claims(
    d: Duplex,
    seeds: Seq<Vec<u32>>,
    openings: Seq<Vec<[u32; 4]>>,
    k: nat,
    n: nat,
)
    requires
        k <= n,
    ensures
        extends(
            reference::opening_claims(d, seeds, openings, k).0,
            reference::opening_claims(d, seeds, openings, n).0,
        ),
        extends(d, reference::opening_claims(d, seeds, openings, n).0),
    decreases n,
{
    if n > 0 {
        let m = (n - 1) as nat;
        log_claims(
            d,
            seeds,
            openings,
            if k < n {
                k
            } else {
                m
            },
            m,
        );
        let e = reference::opening_claims(d, seeds, openings, m).0;
        log_observed_all(e, seeds[n - 1]@);
        let f = sponge::observed_all(e, seeds[n - 1]@);
        log_sampled_quad(f);
        log_observed_quads(sponge::sampled_quad(f).0, openings[n - 1]@);
    }
}

pub proof fn log_sumchecks(d: Duplex, rs: Seq<SumcheckRoundData>, k: nat, n: nat)
    requires
        k <= n,
    ensures
        extends(
            reference::sumchecks(d, rs, 0, k).0,
            reference::sumchecks(d, rs, 0, n).0,
        ),
        extends(d, reference::sumchecks(d, rs, 0, n).0),
        reference::sumchecks(d, rs, 0, n).2,
    decreases n,
{
    if n > 0 {
        let m = (n - 1) as nat;
        log_sumchecks(
            d,
            rs,
            if k < n {
                k
            } else {
                m
            },
            m,
        );
        let e = reference::sumchecks(d, rs, 0, m).0;
        let r = rs[n - 1];
        log_observed_quad(e, r.poly@[0]@);
        let f = sponge::observed_quad(e, r.poly@[0]@);
        log_observed_quad(f, r.poly@[1]@);
        log_sampled_quad(sponge::observed_quad(f, r.poly@[1]@));
    }
}

pub proof fn log_ood(d: Duplex, answers: Seq<[u32; 4]>, k: nat, n: nat)
    requires
        k <= n,
    ensures
        extends(
            reference::ood_samples(d, answers, k).0,
            reference::ood_samples(d, answers, n).0,
        ),
        extends(d, reference::ood_samples(d, answers, n).0),
    decreases n,
{
    if n > 0 {
        let m = (n - 1) as nat;
        log_ood(
            d,
            answers,
            if k < n {
                k
            } else {
                m
            },
            m,
        );
        let e = reference::ood_samples(d, answers, m).0;
        log_sampled_quad(e);
        log_observed_quad(sponge::sampled_quad(e).0, answers[n - 1]@);
    }
}

// ---------------------------------------------------------------------------
// Query blocks.
// ---------------------------------------------------------------------------

/// The positions that samples `lo..hi` of the log give: those below the
/// threshold, masked.
pub open spec fn block(log: Seq<int>, bits: nat, lo: int, hi: int) -> Seq<int>
    decreases hi - lo,
{
    if hi <= lo {
        Seq::empty()
    } else {
        let before = block(log, bits, lo, hi - 1);
        if log[hi - 1] < sponge::threshold(bits) {
            before.push(log[hi - 1] % (pow2(bits) as int))
        } else {
            before
        }
    }
}

pub proof fn lemma_block_prefix(s: Seq<int>, t: Seq<int>, bits: nat, lo: int, hi: int)
    requires
        prefix(s, t),
        0 <= lo,
        hi <= s.len(),
    ensures
        block(s, bits, lo, hi) == block(t, bits, lo, hi),
    decreases hi - lo,
{
    if lo < hi {
        lemma_block_prefix(s, t, bits, lo, hi - 1);
        assert(t[hi - 1] == s[hi - 1]);
    }
}

/// Samples that are all rejected add nothing.
proof fn lemma_block_rejected(log: Seq<int>, bits: nat, lo: int, mid: int, hi: int)
    requires
        lo <= mid <= hi,
        forall|i: int| mid <= i < hi ==> #[trigger] log[i] >= sponge::threshold(bits),
    ensures
        block(log, bits, lo, hi) == block(log, bits, lo, mid),
    decreases hi - mid,
{
    if mid < hi {
        lemma_block_rejected(log, bits, lo, mid, hi - 1);
        assert(log[hi - 1] >= sponge::threshold(bits));
    }
}

/// The log of `k + 1` samples.
proof fn log_sampled_at(d: Duplex, k: nat)
    ensures
        sponge::sampled_at(d, k).0.seen == d.seen,
        sponge::sampled_at(d, k).0.drawn.len() == d.drawn.len() + k + 1,
        extends(d, sponge::sampled_at(d, k).0),
        forall|j: nat|
            j <= k ==> sponge::sampled_at(d, k).0.drawn[d.drawn.len() as int + j] == (
            #[trigger] sponge::sampled_at(d, j)).1,
    decreases k,
{
    if k > 0 {
        log_sampled_at(d, (k - 1) as nat);
        let e = sponge::sampled_at(d, (k - 1) as nat).0;
        let f = sponge::sampled_at(d, k).0;
        assert(f.drawn == e.drawn.push(sponge::sampled_at(d, k).1));
        assert forall|j: nat| j <= k implies f.drawn[d.drawn.len() as int + j] == (
        #[trigger] sponge::sampled_at(d, j)).1 by {
            if j < k {
                assert(e.drawn[d.drawn.len() as int + j] == sponge::sampled_at(d, j).1);
            }
        }
    }
}

/// One draw by rejection.
proof fn log_chunk(d: Duplex, bits: nat)
    requires
        sponge::stops(d, sponge::threshold(bits)),
    ensures
        ({
            let (e, q) = sponge::drawn_chunk(d, bits);
            let lo = d.drawn.len() as int;
            let hi = e.drawn.len() as int;
            &&& e.seen == d.seen
            &&& extends(d, e)
            &&& lo < hi
            &&& e.drawn[hi - 1] < sponge::threshold(bits)
            &&& q == e.drawn[hi - 1] % (pow2(bits) as int)
            &&& forall|i: int| lo <= i < hi - 1 ==> #[trigger] e.drawn[i] >= sponge::threshold(bits)
        }),
{
    let m = sponge::threshold(bits);
    let k = sponge::rejected(d, m);
    assert(sponge::is_first(d, m, k));
    log_sampled_at(d, k);
    let e = sponge::sampled_at(d, k).0;
    let lo = d.drawn.len() as int;
    assert(e.drawn[lo + k] == sponge::sampled_at(d, k).1);
    assert forall|i: int| lo <= i < lo + k implies #[trigger] e.drawn[i] >= m by {
        let j = (i - lo) as nat;
        assert(e.drawn[lo + j] == sponge::sampled_at(d, j).1);
        assert(sponge::sampled_at(d, j).1 >= m);
    }
}

/// The log of a list of draws gives the draws, and no shorter part of it gives
/// as many.
pub proof fn log_uniform(d: Duplex, bits: nat, n: nat)
    requires
        sponge::wf(d),
        0 < bits <= sponge::MAX_SINGLE_SAMPLE_BITS,
        !reference::uniform_draws(d, bits, n).0.stuck,
    ensures
        ({
            let (e, qs) = reference::uniform_draws(d, bits, n);
            let lo = d.drawn.len() as int;
            let hi = e.drawn.len() as int;
            &&& e.seen == d.seen
            &&& extends(d, e)
            &&& block(e.drawn, bits, lo, hi) == qs
            &&& qs.len() == n
            &&& forall|x: int| lo <= x < hi ==> (#[trigger] block(e.drawn, bits, lo, x)).len() < n
        }),
    decreases n,
{
    if n > 0 {
        let m = (n - 1) as nat;
        let (c, rs) = reference::uniform_draws(d, bits, m);
        reference::lemma_uniform(d, bits, m, n);
        reference::lemma_uniform(d, bits, 0, m);
        log_uniform(d, bits, m);
        let (e, qs) = reference::uniform_draws(d, bits, n);
        let lo = d.drawn.len() as int;
        let mid = c.drawn.len() as int;
        let hi = e.drawn.len() as int;
        sponge::lemma_drawn_chunk(c, bits);
        log_chunk(c, bits);
        lemma_block_prefix(c.drawn, e.drawn, bits, lo, mid);
        lemma_block_rejected(e.drawn, bits, lo, mid, hi - 1);
        assert forall|x: int| lo <= x < hi implies (#[trigger] block(
            e.drawn,
            bits,
            lo,
            x,
        )).len() < n by {
            if x < mid {
                lemma_block_prefix(c.drawn, e.drawn, bits, lo, x);
                assert(block(c.drawn, bits, lo, x).len() < m);
            } else {
                lemma_block_rejected(e.drawn, bits, lo, mid, x);
            }
        }
    }
}

/// A block of queries a script can check: one draw per index.
pub open spec fn checkable(bits: nat) -> bool {
    bits <= sponge::MAX_SINGLE_SAMPLE_BITS
}

/// The log of a query block.
pub proof fn log_queries(d: Duplex, bits: nat, n: nat)
    requires
        sponge::wf(d),
        checkable(bits),
        !reference::queries(d, bits, n).0.stuck,
    ensures
        ({
            let (e, qs) = reference::queries(d, bits, n);
            let lo = d.drawn.len() as int;
            let hi = e.drawn.len() as int;
            &&& e.seen == d.seen
            &&& extends(d, e)
            &&& n >= pow2(bits) ==> e == d
            &&& n < pow2(bits) ==> {
                &&& block(e.drawn, bits, lo, hi) == qs
                &&& qs.len() == n
                &&& forall|x: int|
                    lo <= x < hi ==> (#[trigger] block(e.drawn, bits, lo, x)).len() < n
            }
        }),
{
    if n < pow2(bits) {
        if bits == 0 {
            vstd::arithmetic::power2::lemma2_to64();
            assert(n == 0);
            assert(reference::uniform_draws(d, bits, n) == (d, Seq::<int>::empty()));
        } else {
            log_uniform(d, bits, n);
        }
    }
}

/// A round without proof of work.
pub open spec fn workless(rc: RoundConfig) -> bool {
    &&& rc.pow_bits == 0
    &&& rc.folding_pow_bits == 0
    &&& checkable(rc.domain_bits as nat)
}

pub proof fn log_round(d: Duplex, rc: RoundConfig, rd: RoundData)
    requires
        sponge::wf(d),
        workless(rc),
        !reference::round(d, rc, rd).0.stuck,
    ensures
        extends(d, reference::round(d, rc, rd).0),
        reference::round(d, rc, rd).1.pow_ok,
{
    log_observed_all(d, rd.root@);
    sponge::lemma_observed_all(d, rd.root@);
    let a = sponge::observed_all(d, rd.root@);
    log_ood(a, rd.ood_answers@, 0, rd.ood_answers@.len());
    reference::lemma_ood(a, rd.ood_answers@, rd.ood_answers@.len());
    let b = reference::ood_samples(a, rd.ood_answers@, rd.ood_answers@.len()).0;
    let (bits, n) = (rc.domain_bits as nat, rc.num_queries as nat);
    reference::law_queries_in_range(b, bits, n);
    let g = reference::queries(b, bits, n).0;
    sponge::lemma_sampled_quad(g);
    log_sampled_quad(g);
    let h = sponge::sampled_quad(g).0;
    sponge::lemma_observed_all(h, rd.seed_sumcheck@);
    log_observed_all(h, rd.seed_sumcheck@);
    let i = sponge::observed_all(h, rd.seed_sumcheck@);
    reference::lemma_sumchecks(i, rd.sumcheck@, 0, rd.sumcheck@.len());
    log_sumchecks(i, rd.sumcheck@, 0, rd.sumcheck@.len());
    log_queries(b, bits, n);
}

pub proof fn log_rounds(d: Duplex, cfgs: Seq<RoundConfig>, data: Seq<RoundData>, k: nat, n: nat)
    requires
        sponge::wf(d),
        k <= n <= cfgs.len(),
        forall|i: int| 0 <= i < cfgs.len() ==> workless(#[trigger] cfgs[i]),
        !reference::rounds(d, cfgs, data, n).0.stuck,
    ensures
        extends(
            reference::rounds(d, cfgs, data, k).0,
            reference::rounds(d, cfgs, data, n).0,
        ),
        extends(d, reference::rounds(d, cfgs, data, n).0),
        reference::rounds(d, cfgs, data, n).2,
    decreases n,
{
    if n > 0 {
        let m = (n - 1) as nat;
        reference::lemma_rounds(d, cfgs, data, m, n);
        reference::lemma_rounds(d, cfgs, data, 0, m);
        log_rounds(
            d,
            cfgs,
            data,
            if k < n {
                k
            } else {
                m
            },
            m,
        );
        assert(workless(cfgs[m as int]));
        log_round(reference::rounds(d, cfgs, data, m).0, cfgs[m as int], data[m as int]);
    }
}

/// The positions a block of draws gives.
pub open spec fn block_positions(
    samples: Seq<int>,
    bits: nat,
    num: nat,
    lo: int,
    hi: int,
) -> Seq<int> {
    if num >= pow2(bits) {
        Seq::new(pow2(bits), |i: int| i)
    } else {
        block(samples, bits, lo, hi)
    }
}

} // verus!

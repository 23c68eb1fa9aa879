//! Queries, openings and folds in a verifier script.
use super::builder::{lemma_one, sp, Builder};
use super::log;
use super::log::block_positions;
use super::pieces::{lemma_appended, lemma_prefix_append};
use super::pruned;
use super::pruned::{Digest, Error, Poseidon2Tree};
use super::reading;
use super::script;
use super::script::Op;
use super::sponge;
use super::symbols;
use super::symbols::{
    alt_spread, at, both, constant, datum, none, prefix, quad_at, spread, stand, Cond, Sym, Val,
};
use super::verify;
use super::verify::Opening;
use crate::merkle;
use crate::poseidon2::reference as permutation;
use vstd::arithmetic::power2::{lemma_pow2_pos, lemma_pow2_unfold, pow2};
use vstd::prelude::*;

verus! {

broadcast use {
    symbols::lemma_spread_len,
    symbols::lemma_alt_spread_len,
    script::lemma_census_push,
};

/// One query, with the index its draw became and where that index is kept.
#[derive(Clone, Copy, Debug)]
pub struct Query {
    pub index: u32,
    /// Kept entry of the masked index, once the draw checks have run.
    pub entry: u128,
}

/// The queries are at `idx`, and `vals` is kept for them.
pub open spec fn queried(k: Seq<Val>, qs: Seq<Query>, idx: Seq<int>, vals: Seq<Val>) -> bool {
    &&& qs.len() == idx.len()
    &&& qs.len() == vals.len()
    &&& forall|j: int|
        0 <= j < qs.len() ==> {
            &&& (#[trigger] qs[j]).index == idx[j]
            &&& qs[j].entry < k.len()
            &&& k[qs[j].entry as int] == vals[j]
        }
}

/// Base elements stand at entries of the kept region.
pub open spec fn bases_stand(k: Seq<Val>, entries: Seq<u128>, vals: Seq<Val>) -> bool {
    &&& entries.len() == vals.len()
    &&& forall|j: int|
        0 <= j < entries.len() ==> (#[trigger] entries[j]) < k.len() && k[entries[j] as int]
            == vals[j]
}

/// Nowhere negative.
pub open spec fn natural(v: Val) -> bool {
    forall|u: Seq<int>| 0 <= #[trigger] v(u)
}

pub proof fn lemma_queried(
    k: Seq<Val>,
    l: Seq<Val>,
    qs: Seq<Query>,
    idx: Seq<int>,
    vals: Seq<Val>,
)
    requires
        prefix(k, l),
        queried(k, qs, idx, vals),
    ensures
        queried(l, qs, idx, vals),
{
    assert forall|j: int| 0 <= j < qs.len() implies ({
        &&& (#[trigger] qs[j]).index == idx[j]
        &&& qs[j].entry < l.len()
        &&& l[qs[j].entry as int] == vals[j]
    }) by {
        assert(l[qs[j].entry as int] == k[qs[j].entry as int]);
    }
}

pub proof fn lemma_bases(k: Seq<Val>, l: Seq<Val>, entries: Seq<u128>, vals: Seq<Val>)
    requires
        prefix(k, l),
        bases_stand(k, entries, vals),
    ensures
        bases_stand(l, entries, vals),
{
    assert forall|j: int| 0 <= j < entries.len() implies (#[trigger] entries[j]) < l.len()
        && l[entries[j] as int] == vals[j] by {
        assert(l[entries[j] as int] == k[entries[j] as int]);
    }
}

/// One bit more of a remainder.
proof fn lemma_bit_more(v: int, i: nat)
    requires
        0 <= v,
    ensures
        v % (pow2(i + 1) as int) == v % (pow2(i) as int) + (if script::bit(v, i) != 0 {
            pow2(i) as int
        } else {
            0
        }),
{
    lemma_pow2_pos(i);
    lemma_pow2_unfold(i + 1);
    let p = pow2(i) as int;
    vstd::arithmetic::div_mod::lemma_mod_breakdown(v, p, 2);
    assert(p * 2 == pow2(i + 1)) by (nonlinear_arith)
        requires
            pow2(i + 1) == 2 * pow2(i),
            p == pow2(i) as int,
    ;
    let b = (v / p) % 2;
    assert(b == 0 || b == 1);
    assert(p * b == (if b != 0 {
        p
    } else {
        0
    })) by (nonlinear_arith)
        requires
            b == 0 || b == 1,
    ;
}

/// The siblings of a path laid out top level first.
pub open spec fn laid_path(sibs: Seq<Seq<int>>, n: nat) -> Seq<int>
    decreases n,
{
    if n == 0 {
        Seq::empty()
    } else {
        sibs[n - 1] + laid_path(sibs, (n - 1) as nat)
    }
}

/// Every sibling of a laid out path can be read back.
pub proof fn lemma_laid(sibs: Seq<Seq<int>>, n: nat)
    requires
        n <= sibs.len(),
        forall|l: int| 0 <= l < n ==> (#[trigger] sibs[l]).len() == 8,
    ensures
        laid_path(sibs, n).len() == 8 * n,
        forall|l: int|
            0 <= l < n ==> laid_path(sibs, n).subrange(8 * (n - 1 - l), 8 * (n - 1 - l) + 8)
                == #[trigger] sibs[l],
    decreases n,
{
    if n > 0 {
        let m = (n - 1) as nat;
        lemma_laid(sibs, m);
        let (all, rest) = (laid_path(sibs, n), laid_path(sibs, m));
        assert forall|l: int| 0 <= l < n implies all.subrange(8 * (n - 1 - l), 8 * (n - 1 - l) + 8)
            == #[trigger] sibs[l] by {
            if l == m {
                assert(all.subrange(0, 8) =~= sibs[l]);
            } else {
                assert(all.subrange(8 * (n - 1 - l), 8 * (n - 1 - l) + 8) =~= rest.subrange(
                    8 * (m - 1 - l),
                    8 * (m - 1 - l) + 8,
                ));
            }
        }
    }
}

/// The directions of an index's bits are those of its ancestors.
proof fn lemma_directions(v: int, l: nat)
    requires
        0 <= v,
    ensures
        merkle::ancestor(v, l) == v / (pow2(l) as int),
    decreases l,
{
    if l == 0 {
        vstd::arithmetic::power2::lemma2_to64();
    } else {
        let m = (l - 1) as nat;
        lemma_directions(v, m);
        lemma_pow2_pos(m);
        lemma_pow2_unfold(l);
        vstd::arithmetic::div_mod::lemma_div_denominator(v, pow2(m) as int, 2);
        assert(pow2(m) as int * 2 == pow2(l)) by (nonlinear_arith)
            requires
                pow2(l) == 2 * pow2(m),
        ;
    }
}

/// An opening's paths and rows stand in the data.
pub open spec fn laid(s: Seq<int>, starts: Seq<u128>, o: Opening, idx: Seq<int>, depth: nat) -> bool {
    &&& starts.len() == o.rows@.len()
    &&& forall|q: int|
        0 <= q < starts.len() ==> row_laid(
            s,
            #[trigger] starts[q] as int,
            verify::siblings(o, idx, depth, q),
            permutation::ints(o.rows@[q]@),
            depth,
        )
}

/// A path and its row stand at `at`.
pub open spec fn row_laid(
    s: Seq<int>,
    at: int,
    sibs: Seq<Seq<int>>,
    row: Seq<int>,
    depth: nat,
) -> bool {
    &&& 0 <= at
    &&& at + 8 * depth + row.len() <= s.len()
    &&& sibs.len() == depth
    &&& forall|l: int| 0 <= l < depth ==> (#[trigger] sibs[l]).len() == 8
    &&& s.subrange(at, at + 8 * depth) == laid_path(sibs, depth)
    &&& s.subrange(at + 8 * depth, at + 8 * depth + row.len()) == row
}

pub proof fn lemma_row_laid(
    s: Seq<int>,
    t: Seq<int>,
    at: int,
    sibs: Seq<Seq<int>>,
    row: Seq<int>,
    depth: nat,
)
    requires
        log::prefix(s, t),
        row_laid(s, at, sibs, row, depth),
    ensures
        row_laid(t, at, sibs, row, depth),
{
    assert(t.subrange(at, at + 8 * depth) =~= s.subrange(at, at + 8 * depth));
    assert(t.subrange(at + 8 * depth, at + 8 * depth + row.len()) =~= s.subrange(
        at + 8 * depth,
        at + 8 * depth + row.len(),
    ));
}

/// Each query's path starts after what the queries before it add to the data.
pub open spec fn placed_at(
    starts: Seq<u128>,
    first: nat,
    o: Opening,
    idx: Seq<int>,
    depth: nat,
) -> bool {
    forall|q: int|
        0 <= q < starts.len() ==> #[trigger] starts[q] == first + laid_words(
            o,
            idx,
            depth,
            q as nat,
        ).len()
}

/// What the first `n` queries of an opening add to the data.
pub open spec fn laid_words(o: Opening, idx: Seq<int>, depth: nat, n: nat) -> Seq<int>
    decreases n,
{
    if n == 0 {
        Seq::empty()
    } else {
        let q = n - 1;
        (laid_words(o, idx, depth, (n - 1) as nat) + laid_path(
            verify::siblings(o, idx, depth, q),
            depth,
        )) + permutation::ints(o.rows@[q]@)
    }
}

/// A row per query and the digests the pruned proof owes.
pub open spec fn expandable(o: Opening, idx: Seq<int>, depth: nat) -> bool {
    &&& o.rows@.len() == idx.len()
    &&& pruned::complete(o.boundaries@.len(), idx, o.rows@.len(), depth)
}

/// Why an opening cannot be laid out.
pub open spec fn refusal(o: Opening, idx: Seq<int>, depth: nat) -> Error {
    let count = merkle::boundary_count(merkle::sorted_unique(idx), depth);
    if o.rows@.len() != idx.len() {
        Error::MissingLeaf {
            index: if o.rows@.len() < idx.len() {
                o.rows@.len() as usize
            } else {
                idx.len() as usize
            },
        }
    } else if !merkle::well_indexed(idx, o.rows@.len(), depth) {
        Error::IndexOutOfRange {
            index: idx[merkle::first_out_of_range(idx, depth)] as usize,
            depth: depth as usize,
        }
    } else {
        Error::SiblingCount {
            expected: if count <= usize::MAX {
                count as usize
            } else {
                usize::MAX
            },
            got: o.boundaries@.len() as usize,
        }
    }
}

/// Query `q`'s own row reaches the root.
pub open spec fn row_authentic(o: Opening, root: Seq<u32>, idx: Seq<int>, depth: nat, q: int) -> bool {
    merkle::climbed::<Poseidon2Tree>(
        idx[q],
        verify::leaves(o)[q],
        verify::siblings(o, idx, depth, q),
        depth,
    ) == permutation::ints(root).take(8)
}

impl Builder {
    /// The draw checks of one query block: every sample below the rejection
    /// threshold is masked to an index and kept, in draw order, duplicates and
    /// all; one at or above it is verified to be and skipped. When the domain is
    /// no larger than the query count there are no draws and the queries are every
    /// position.
    pub(crate) fn query_draws(
        &mut self,
        draws: &[u128],
        bits: usize,
        num_queries: usize,
        Ghost(k): Ghost<Seq<Val>>,
        Ghost(lo): Ghost<int>,
    ) -> (r: (Vec<Query>, Ghost<Seq<Val>>))
        requires
            old(self).holds(k, none(), none()),
            bits <= sponge::MAX_SINGLE_SAMPLE_BITS,
            old(self).samples@.len() <= k.len(),
            forall|e: int| 0 <= e < old(self).samples@.len() ==> natural(#[trigger] k[e]),
            0 <= lo,
            num_queries < pow2(bits as nat) ==> {
                &&& lo + draws@.len() <= old(self).samples@.len()
                &&& forall|i: int| 0 <= i < draws@.len() ==> #[trigger] draws@[i] == lo + i
            },
        ensures
            final(self).holds(r.1@, none(), none()),
            final(self).tape.data@ == old(self).tape.data@,
            final(self).samples@ == old(self).samples@,
            final(self).census() == old(self).census(),
            final(self).tape.ok@ == both(
                old(self).tape.ok@,
                reading::alike(
                    k,
                    permutation::ints(old(self).samples@),
                    bits as nat,
                    num_queries as nat,
                    lo,
                    lo + draws@.len(),
                ),
            ),
            prefix(k, r.1@),
            queried(
                r.1@,
                r.0@,
                block_positions(
                    permutation::ints(old(self).samples@),
                    bits as nat,
                    num_queries as nat,
                    lo,
                    lo + draws@.len(),
                ),
                reading::indices(
                    k,
                    permutation::ints(old(self).samples@),
                    bits as nat,
                    num_queries as nat,
                    lo,
                    lo + draws@.len(),
                ),
            ),
    {
        let ghost samples = permutation::ints(self.samples@);
        let ghost first = self.tape.ok@;
        let ghost hi = lo + draws@.len();
        let ghost goal = both(
            first,
            reading::alike(k, samples, bits as nat, num_queries as nat, lo, hi),
        );
        let ghost mut cur = k;
        let mut out: Vec<Query> = Vec::new();
        let size: u32 = sponge::two_to_u32(bits);
        if num_queries as u128 >= size as u128 {
            let ghost every = Seq::new(pow2(bits as nat), |i: int| i);
            let ghost vals = Seq::new(pow2(bits as nat), |i: int| constant(i));
            let mut index: u32 = 0;
            while index < size
                invariant
                    index <= size,
                    size == pow2(bits as nat),
                    every == Seq::new(pow2(bits as nat), |i: int| i),
                    vals == Seq::new(pow2(bits as nat), |i: int| constant(i)),
                    self.holds(cur, none(), none()),
                    self.same(old(self)),
                    prefix(k, cur),
                    queried(cur, out@, every.take(index as int), vals.take(index as int)),
                decreases size - index,
            {
                self.tape.push(index);
                assert(self.tape.ops.len() == self.tape.ops@.len());
                self.temps = self.temps + 1;
                let ghost top = seq![constant(index as int)];
                assert(self.tape.work@ =~= cur + top);
                let entry = self.bury(1, Ghost(cur), Ghost(top), Ghost(none()));
                proof {
                    lemma_prefix_append(cur, top);
                    lemma_queried(
                        cur,
                        cur + top,
                        out@,
                        every.take(index as int),
                        vals.take(index as int),
                    );
                    cur = cur + top;
                }
                out.push(Query { index, entry });
                index = index + 1;
                assert(every.take(index as int).drop_last() =~= every.take(index - 1));
                assert(vals.take(index as int).drop_last() =~= vals.take(index - 1));
            }
            assert(every.take(index as int) =~= every);
            assert(vals.take(index as int) =~= vals);
            assert(self.tape.ok@ =~= goal);
            return (out, Ghost(cur));
        }
        let m = sponge::threshold_of(bits);
        let mut i: usize = 0;
        let ghost mut vals = Seq::<Val>::empty();
        assert(vals =~= reading::indices(k, samples, bits as nat, num_queries as nat, lo, lo));
        while i < draws.len()
            invariant
                i <= draws@.len(),
                bits <= 24,
                num_queries < pow2(bits as nat),
                size == pow2(bits as nat),
                m == sponge::threshold(bits as nat),
                samples == permutation::ints(self.samples@),
                self.holds(cur, none(), none()),
                self.tape.data@ == old(self).tape.data@,
                self.samples@ == old(self).samples@,
                self.census() == old(self).census(),
                forall|u: Seq<int>| #[trigger]
                    (self.tape.ok@)(u) == (first(u) && forall|e: int|
                        lo <= e < lo + i ==> (#[trigger] at(k, u)[e] < m) == (samples[e] < m)),
                prefix(k, cur),
                samples.len() <= k.len(),
                forall|e: int| 0 <= e < samples.len() ==> natural(#[trigger] k[e]),
                0 <= lo,
                lo + draws@.len() <= samples.len(),
                forall|j: int| 0 <= j < draws@.len() ==> #[trigger] draws@[j] == lo + j,
                vals == reading::indices(
                    k,
                    samples,
                    bits as nat,
                    num_queries as nat,
                    lo,
                    lo + i,
                ),
                queried(cur, out@, log::block(samples, bits as nat, lo, lo + i), vals),
            decreases draws@.len() - i,
        {
            let e = draws[i];
            assert(self.samples.len() == self.samples@.len());
            let v = self.samples[e as usize];
            let ghost idx = log::block(samples, bits as nat, lo, lo + i);
            let ghost x = k[e as int];
            let ghost before = self.tape.ok@;
            let ghost es = reading::kept(samples, bits as nat, lo, lo + i);
            proof {
                assert(samples[e as int] == v as int);
                assert(cur[e as int] == x);
                assert(cur.subrange(e as int, e + 1) =~= seq![x]);
                assert(natural(x));
            }
            self.push_kept(e, 1, Ghost(cur), Ghost(none()), Ghost(none()));
            assert(self.tape.work@ =~= cur + seq![x]);
            if v >= m {
                self.tape.push(m);
                self.tape.at_least();
                self.tape.verify();
                self.temps = self.temps - 1;
                assert(self.tape.work@ =~= cur + none());
                assert(log::block(samples, bits as nat, lo, lo + i + 1) == idx);
                proof {
                    assert(reading::kept(samples, bits as nat, lo, lo + i + 1) == es);
                }
            } else {
                self.mask(bits, m, Ghost(cur), Ghost(x));
                proof {
                    lemma_pow2_pos(bits as nat);
                }
                let index = v % size;
                let ghost top = seq![symbols::low(x, bits as nat)];
                let entry = self.bury(1, Ghost(cur), Ghost(top), Ghost(none()));
                proof {
                    lemma_prefix_append(cur, top);
                    lemma_queried(cur, cur + top, out@, idx, vals);
                    cur = cur + top;
                    assert(log::block(samples, bits as nat, lo, lo + i + 1) == idx.push(
                        index as int,
                    ));
                    assert(reading::kept(samples, bits as nat, lo, lo + i + 1) == es.push(
                        e as int,
                    ));
                    vals = vals.push(symbols::low(x, bits as nat));
                }
                out.push(Query { index, entry });
            }
            i = i + 1;
            proof {
                assert(vals =~= reading::indices(
                    k,
                    samples,
                    bits as nat,
                    num_queries as nat,
                    lo,
                    lo + i,
                ));
                assert forall|u: Seq<int>| #[trigger] (self.tape.ok@)(u) == (first(u)
                    && forall|e: int|
                    lo <= e < lo + i ==> (#[trigger] at(k, u)[e] < m) == (samples[e] < m)) by {
                    assert((self.tape.ok@)(u) == (before(u) && (x(u) < m) == (v < m)));
                    assert(at(k, u)[e as int] == x(u));
                    assert(e == lo + i - 1);
                }
            }
        }
        assert(self.tape.ok@ =~= goal) by {
            assert forall|u: Seq<int>| #[trigger] (self.tape.ok@)(u) == goal(u) by {
                let s = at(k, u);
                assert(goal(u) == (first(u) && reading::same_draws(
                    samples,
                    s,
                    bits as nat,
                    num_queries as nat,
                    lo,
                    hi,
                )));
            }
        }
        (out, Ghost(cur))
    }

    /// Checks the sample on top to be below the threshold and masks it.
    fn mask(&mut self, bits: usize, m: u32, Ghost(k): Ghost<Seq<Val>>, Ghost(v): Ghost<Val>)
        requires
            old(self).tape.sound(),
            old(self).tape.work@ == k + seq![v],
            old(self).tape.alt@ == none(),
            old(self).kept == k.len(),
            old(self).temps == 1,
            !old(self).state,
            natural(v),
            bits < 32,
        ensures
            final(self).holds(k, seq![symbols::low(v, bits as nat)], none()),
            final(self).tape.data@ == old(self).tape.data@,
            final(self).samples@ == old(self).samples@,
            final(self).census() == old(self).census(),
            forall|u: Seq<int>| #[trigger]
                (final(self).tape.ok@)(u) == ((old(self).tape.ok@)(u) && v(u) < m),
    {
        self.tape.dup();
        self.tape.push(m);
        self.tape.less_than();
        self.tape.verify();
        assert(self.tape.work@ =~= k + seq![v]);
        self.tape.low_bits(bits);
        self.tape.push(0);
        let ghost all = symbols::low_bits(v, bits as nat);
        let ghost passed = self.tape.ok@;
        let mut i: usize = 0;
        proof {
            vstd::arithmetic::power2::lemma2_to64();
            assert(self.tape.alt@ =~= all.take(bits as int));
            assert(constant(0) =~= symbols::low(v, 0));
            assert(self.tape.work@ =~= k + seq![symbols::low(v, 0)]);
        }
        while i < bits
            invariant
                i <= bits,
                bits < 32,
                natural(v),
                all == symbols::low_bits(v, bits as nat),
                self.tape.sound(),
                self.tape.work@ == k + seq![symbols::low(v, i as nat)],
                self.tape.alt@ == all.take(bits - i),
                self.tape.data@ == old(self).tape.data@,
                self.samples@ == old(self).samples@,
                self.census() == old(self).census(),
                self.tape.ok@ == passed,
                self.kept == old(self).kept,
                self.temps == old(self).temps,
                self.state == old(self).state,
            decreases bits - i,
        {
            let p = sponge::two_to_u32(i);
            self.tape.from_alt();
            self.tape.add_if(p);
            proof {
                let b = all[bits - 1 - i];
                let got = symbols::added_if(symbols::low(v, i as nat), b, p as int);
                let want = symbols::low(v, (i + 1) as nat);
                assert forall|u: Seq<int>| #[trigger] got(u) == want(u) by {
                    assert(0 <= v(u));
                    lemma_bit_more(v(u), i as nat);
                    assert(b(u) == script::bit(v(u), i as nat));
                }
                assert(got =~= want);
            }
            i = i + 1;
            assert(self.tape.work@ =~= k + seq![symbols::low(v, i as nat)]);
            assert(self.tape.alt@ =~= all.take(bits - i));
        }
        assert(self.tape.alt@ =~= none());
    }

    /// Appends words to the data.
    fn append_words(&mut self, words: &[u32])
        requires
            old(self).tape.sound(),
        ensures
            final(self).tape.sound(),
            final(self).words() == old(self).words() + permutation::ints(words@),
            final(self).tape.work@ == old(self).tape.work@,
            final(self).tape.alt@ == old(self).tape.alt@,
            final(self).tape.ok@ == old(self).tape.ok@,
            final(self).samples@ == old(self).samples@,
            final(self).census() == old(self).census(),
            final(self).kept == old(self).kept,
            final(self).temps == old(self).temps,
            final(self).state == old(self).state,
    {
        let ghost all = permutation::ints(words@);
        let mut i: usize = 0;
        assert(self.words() + all.take(0) =~= self.words());
        while i < words.len()
            invariant
                i <= words@.len(),
                all == permutation::ints(words@),
                self.tape.sound(),
                self.words() == old(self).words() + all.take(i as int),
                self.tape.work@ == old(self).tape.work@,
                self.tape.alt@ == old(self).tape.alt@,
                self.tape.ok@ == old(self).tape.ok@,
                self.census() == old(self).census(),
                self.samples@ == old(self).samples@,
                self.kept == old(self).kept,
                self.temps == old(self).temps,
                self.state == old(self).state,
            decreases words@.len() - i,
        {
            let ghost s = self.words();
            self.tape.add_datum(words[i]);
            i = i + 1;
            assert(self.words() =~= s.push(all[i - 1]));
            assert(self.words() =~= old(self).words() + all.take(i as int));
        }
        assert(all.take(i as int) =~= all);
    }

    /// Appends a path's siblings to the data, top level first.
    fn append_path(&mut self, siblings: &Vec<Digest>, depth: usize)
        requires
            old(self).tape.sound(),
            siblings@.len() == depth,
        ensures
            final(self).tape.sound(),
            final(self).words() == old(self).words() + laid_path(
                permutation::digests(siblings@),
                depth as nat,
            ),
            final(self).tape.work@ == old(self).tape.work@,
            final(self).tape.alt@ == old(self).tape.alt@,
            final(self).tape.ok@ == old(self).tape.ok@,
            final(self).samples@ == old(self).samples@,
            final(self).census() == old(self).census(),
            final(self).kept == old(self).kept,
            final(self).temps == old(self).temps,
            final(self).state == old(self).state,
    {
        let ghost sibs = permutation::digests(siblings@);
        let ghost all = laid_path(sibs, depth as nat);
        let mut level = depth;
        let ghost goal = self.words() + all;
        while level > 0
            invariant
                level <= depth,
                siblings@.len() == depth,
                sibs == permutation::digests(siblings@),
                self.tape.sound(),
                self.words() + laid_path(sibs, level as nat) == goal,
                self.tape.work@ == old(self).tape.work@,
                self.tape.alt@ == old(self).tape.alt@,
                self.tape.ok@ == old(self).tape.ok@,
                self.census() == old(self).census(),
                self.samples@ == old(self).samples@,
                self.kept == old(self).kept,
                self.temps == old(self).temps,
                self.state == old(self).state,
            decreases level,
        {
            let ghost s = self.words();
            let d = siblings[level - 1];
            self.append_words(d.as_slice());
            level = level - 1;
            proof {
                assert(permutation::ints(d@) == sibs[level as int]);
                assert((s + sibs[level as int]) + laid_path(sibs, level as nat) =~= s + (
                sibs[level as int] + laid_path(sibs, level as nat)));
            }
        }
        assert(self.words() + laid_path(sibs, 0) =~= self.words());
    }

    /// Appends an opening's paths and rows to the data; per query the siblings top
    /// level first, then the row.
    pub(crate) fn append_opening(
        &mut self,
        opening: &Opening,
        queries: &[Query],
        depth: usize,
        Ghost(k): Ghost<Seq<Val>>,
        Ghost(idx): Ghost<Seq<int>>,
        Ghost(vals): Ghost<Seq<Val>>,
    ) -> (r: Result<Vec<u128>, Error>)
        requires
            old(self).holds(k, none(), none()),
            queried(k, queries@, idx, vals),
        ensures
            r is Ok <==> expandable(*opening, idx, depth as nat),
            r matches Err(e) ==> e == refusal(*opening, idx, depth as nat),
            r matches Ok(starts) ==> {
                &&& final(self).holds(k, none(), none())
                &&& final(self).words() == old(self).words() + laid_words(
                    *opening,
                    idx,
                    depth as nat,
                    idx.len(),
                )
                &&& log::prefix(old(self).words(), final(self).words())
                &&& final(self).samples@ == old(self).samples@
                &&& final(self).census() == old(self).census()
                &&& final(self).tape.ok@ == old(self).tape.ok@
                &&& laid(final(self).words(), starts@, *opening, idx, depth as nat)
                &&& placed_at(starts@, old(self).words().len(), *opening, idx, depth as nat)
            },
    {
        let mut indices: Vec<usize> = Vec::new();
        while indices.len() < queries.len()
            invariant
                indices@.len() <= queries@.len(),
                queried(k, queries@, idx, vals),
                forall|i: int| 0 <= i < indices@.len() ==> #[trigger] indices@[i] == idx[i],
            decreases queries@.len() - indices@.len(),
        {
            let q = queries[indices.len()];
            indices.push(q.index as usize);
        }
        assert(merkle::ints(indices@) =~= idx);
        let leaves = verify::leaf_digests(opening);
        let paths = match pruned::expand(
            opening.boundaries.as_slice(),
            indices.as_slice(),
            leaves.as_slice(),
            depth,
        ) {
            Ok(paths) => paths,
            Err(e) => {
                proof {
                    let at = merkle::first_out_of_range(idx, depth as nat);
                    if opening.rows@.len() == idx.len() && !merkle::well_indexed(
                        idx,
                        opening.rows@.len(),
                        depth as nat,
                    ) {
                        lemma_out_of_range(idx, depth as nat);
                        assert(indices@[at] == idx[at]);
                    }
                }
                return Err(e);
            },
        };
        let ghost bs = permutation::digests(opening.boundaries@);
        let ghost ls = verify::leaves(*opening);
        let mut starts: Vec<u128> = Vec::new();
        let ghost first = self.words();
        assert(first + laid_words(*opening, idx, depth as nat, 0) =~= first);
        while starts.len() < paths.len()
            invariant
                self.words() == first + laid_words(
                    *opening,
                    idx,
                    depth as nat,
                    starts@.len(),
                ),
                starts@.len() <= paths@.len(),
                paths@.len() == idx.len(),
                opening.rows@.len() == idx.len(),
                bs == permutation::digests(opening.boundaries@),
                ls == verify::leaves(*opening),
                forall|q: int|
                    0 <= q < paths@.len() ==> {
                        let p = #[trigger] paths@[q];
                        &&& permutation::digests(p.siblings@) == pruned::path(
                            bs,
                            idx,
                            ls,
                            depth as nat,
                            q,
                        )
                        &&& p.siblings@.len() == depth
                    },
                placed_at(starts@, first.len(), *opening, idx, depth as nat),
                self.holds(k, none(), none()),
                log::prefix(first, self.words()),
                self.samples@ == old(self).samples@,
                self.tape.ok@ == old(self).tape.ok@,
                self.census() == old(self).census(),
                forall|q: int|
                    0 <= q < starts@.len() ==> row_laid(
                        self.words(),
                        #[trigger] starts@[q] as int,
                        verify::siblings(*opening, idx, depth as nat, q),
                        permutation::ints(opening.rows@[q]@),
                        depth as nat,
                    ),
            decreases paths@.len() - starts@.len(),
        {
            let q = starts.len();
            let at = self.tape.data.len() as u128;
            let ghost s0 = self.words();
            let ghost sibs = verify::siblings(*opening, idx, depth as nat, q as int);
            let ghost row = permutation::ints(opening.rows@[q as int]@);
            self.append_path(&paths[q].siblings, depth);
            self.append_words(opening.rows[q].as_slice());
            proof {
                let s = self.words();
                let ds = permutation::digests(paths@[q as int].siblings@);
                assert(ds == sibs);
                assert forall|l: int| 0 <= l < depth implies (#[trigger] sibs[l]).len() == 8 by {
                    assert(ds[l].len() == 8);
                }
                lemma_laid(sibs, depth as nat);
                assert(s == (s0 + laid_path(sibs, depth as nat)) + row);
                let words = laid_words(*opening, idx, depth as nat, q as nat);
                assert(s =~= first + ((words + laid_path(sibs, depth as nat)) + row));
                assert(s.subrange(at as int, at + 8 * depth) =~= laid_path(sibs, depth as nat));
                assert(s.subrange(at + 8 * depth, at + 8 * depth + row.len()) =~= row);
                assert(log::prefix(s0, s));
                assert forall|j: int| 0 <= j < starts@.len() implies row_laid(
                    s,
                    #[trigger] starts@[j] as int,
                    verify::siblings(*opening, idx, depth as nat, j),
                    permutation::ints(opening.rows@[j]@),
                    depth as nat,
                ) by {
                    lemma_row_laid(
                        s0,
                        s,
                        starts@[j] as int,
                        verify::siblings(*opening, idx, depth as nat, j),
                        permutation::ints(opening.rows@[j]@),
                        depth as nat,
                    );
                }
            }
            assert(at == first.len() + laid_words(*opening, idx, depth as nat, q as nat).len());
            starts.push(at);
        }
        Ok(starts)
    }
}

/// The first index out of range exists.
proof fn lemma_out_of_range(idx: Seq<int>, depth: nat)
    requires
        !merkle::well_indexed(idx, idx.len(), depth),
    ensures
        0 <= merkle::first_out_of_range(idx, depth) < idx.len(),
    decreases idx.len(),
{
    let q = choose|q: int| 0 <= q < idx.len() && (#[trigger] idx[q]) >= pow2(depth);
    if idx[0] < pow2(depth) {
        let rest = idx.skip(1);
        assert(rest[q - 1] == idx[q]);
        lemma_out_of_range(rest, depth);
    }
}

/// A path followed by the directions of an index's bits.
proof fn lemma_followed(u: Seq<int>, root: int, start: int, leaf: Seq<int>, v: int, depth: nat)
    requires
        leaf.len() == 8,
        0 <= v,
    ensures
        ({
            let t = (reading::words(u, root, 8) + reading::words(u, start, 8 * depth)) + leaf;
            &&& t.len() == 8 * depth + 16
            &&& t.take(8) == reading::words(u, root, 8)
            &&& permutation::rooted(
                t.skip((8 * depth + 8) as int),
                script::laid_siblings(t, depth),
                script::laid_directions(script::low_bits(v, depth)),
                depth,
            ) == merkle::climbed::<Poseidon2Tree>(
                v,
                leaf,
                reading::siblings(u, start, depth),
                depth,
            )
        }),
{
    let top = reading::words(u, root, 8);
    let path = reading::words(u, start, 8 * depth);
    let sibs = reading::siblings(u, start, depth);
    let t = (top + path) + leaf;
    assert(t.skip((8 * depth + 8) as int) =~= leaf);
    assert(t.take(8) =~= top);
    let got = script::laid_siblings(t, depth);
    assert forall|l: int| 0 <= l < depth implies got[l] == sibs[l] by {
        assert(t.subrange(8 + 8 * (depth - 1 - l), 16 + 8 * (depth - 1 - l)) =~= sibs[l]);
    }
    assert(got =~= sibs);
    let bits = script::laid_directions(script::low_bits(v, depth));
    assert forall|l: int| 0 <= l < depth implies #[trigger] bits[l] == (merkle::ancestor(
        v,
        l as nat,
    ) % 2 == 1) by {
        lemma_directions(v, l as nat);
    }
    verify::lemma_rooted(v, leaf, sibs, bits, depth);
}

/// The row at `start` reaches the root at `root` from the index `v`.
pub open spec fn reaching(root: int, start: int, depth: nat, len: nat, v: Val) -> Cond {
    |u: Seq<int>| reading::reaches(u, root, start, depth, len, v(u))
}

/// Walking a row to its root.
proof fn lemma_walks(n: nat, root: int, start: int, depth: usize, len: nat, v: Val)
    requires
        natural(v),
        0 <= root,
        0 <= start,
        root + 8 <= n,
        start + 8 * depth + len <= n,
    ensures
        ({
            let s = symbols::data(n);
            let leaf = symbols::row_digest(
                s.subrange(start + 8 * depth, start + 8 * depth + len),
            );
            let t = (s.subrange(root, root + 8) + s.subrange(start, start + 8 * depth)) + leaf;
            symbols::does(
                Op::MerkleVerify(depth),
                t,
                symbols::low_bits(v, depth as nat),
                reaching(root, start, depth as nat, len, v),
                none(),
                none(),
            )
        }),
{
    broadcast use symbols::group_at;

    let s = symbols::data(n);
    let row = s.subrange(start + 8 * depth, start + 8 * depth + len);
    let leaf = symbols::row_digest(row);
    let t = (s.subrange(root, root + 8) + s.subrange(start, start + 8 * depth)) + leaf;
    let a = symbols::low_bits(v, depth as nat);
    let c = reaching(root, start, depth as nat, len, v);
    assert forall|u: Seq<int>| #[trigger]
        script::effect(Op::MerkleVerify(depth), at(t, u), at(a, u)) == (if c(u) {
            Some((at(none(), u), at(none(), u)))
        } else {
            None
        }) by {
        let digest = permutation::row_digest(reading::words(u, start + 8 * depth, len));
        assert(at(row, u) =~= reading::words(u, start + 8 * depth, len));
        permutation::law_digests(at(row, u), at(row, u), at(row, u));
        assert(at(leaf, u) =~= digest);
        let flat = (reading::words(u, root, 8) + reading::words(u, start, (8 * depth) as nat))
            + digest;
        assert(at(t, u) =~= flat);
        assert(0 <= v(u));
        assert(at(a, u) =~= script::low_bits(v(u), depth as nat));
        lemma_followed(u, root, start, digest, v(u), depth as nat);
        script::effect_merkle(depth, at(t, u), at(a, u));
    }
}

/// An extension element of the data.
pub proof fn lemma_element(n: nat, i: int)
    requires
        0 <= i,
        i + 4 <= n,
    ensures
        quad_at(symbols::data(n), i) == symbols::element(i),
{
}

/// The folds of an opening's rows.
pub open spec fn fold_syms(
    extension: bool,
    starts: Seq<u128>,
    depth: nat,
    count: nat,
    point: Seq<Sym>,
) -> Seq<Sym> {
    Seq::new(
        starts.len(),
        |q: int|
            symbols::multilinear(
                reading::row_syms(extension, starts[q] + 8 * depth, count),
                point,
            ),
    )
}

/// The points of kept indices.
pub open spec fn point_vals(gen: int, depth: nat, vals: Seq<Val>) -> Seq<Val> {
    Seq::new(vals.len(), |q: int| symbols::power(gen, depth, vals[q]))
}

/// The first `n` rows of an opening reach the root.
pub open spec fn rows_reach(
    u: Seq<int>,
    root: int,
    starts: Seq<u128>,
    depth: nat,
    len: nat,
    vals: Seq<Val>,
    n: int,
) -> bool {
    forall|q: int|
        0 <= q < n ==> #[trigger] row_reaches(u, root, starts, depth, len, vals, q)
}

/// Row `q` of an opening reaches the root.
pub open spec fn row_reaches(
    u: Seq<int>,
    root: int,
    starts: Seq<u128>,
    depth: nat,
    len: nat,
    vals: Seq<Val>,
    q: int,
) -> bool {
    reading::reaches(u, root, starts[q] as int, depth, len, vals[q](u))
}

impl Builder {
    /// Authenticates one row against the root at `root`.
    fn authenticate(
        &mut self,
        root: u128,
        start: u128,
        depth: usize,
        row_len: usize,
        entry: u128,
        Ghost(k): Ghost<Seq<Val>>,
    )
        requires
            old(self).holds(k, none(), none()),
            root + 8 <= old(self).tape.data@.len(),
            start + 8 * depth + row_len <= old(self).tape.data@.len(),
            entry < k.len(),
            natural(k[entry as int]),
        ensures
            final(self).holds(k, none(), none()),
            final(self).tape.data@ == old(self).tape.data@,
            final(self).samples@ == old(self).samples@,
            final(self).census() == script::together(old(self).census(), script::walked(1)),
            final(self).tape.ok@ == both(
                old(self).tape.ok@,
                reaching(
                    root as int,
                    start as int,
                    depth as nat,
                    row_len as nat,
                    k[entry as int],
                ),
            ),
    {
        let ghost s = self.stream();
        let ghost v = k[entry as int];
        let ghost top = s.subrange(root as int, root + 8);
        let ghost path = s.subrange(start as int, start + 8 * depth);
        let ghost row = s.subrange(start + 8 * depth, start + 8 * depth + row_len);
        let ghost leaf = symbols::row_digest(row);
        assert(self.tape.data.len() == self.tape.data@.len());
        let count: u128 = 8 * (depth as u128) + row_len as u128;
        self.push_data(root, 8, Ghost(k), Ghost(none()), Ghost(none()));
        self.push_data(start, count, Ghost(k), Ghost(none() + top), Ghost(none()));
        proof {
            assert(s.subrange(start as int, start + count) =~= path + row);
            assert((none() + top) + (path + row) =~= (top + path) + row);
        }
        let ghost t = (top + path) + row;
        self.push_kept(entry, 1, Ghost(k), Ghost(t), Ghost(none()));
        assert(self.tape.work@ =~= ((k + (top + path)) + row).push(v));
        self.tape.low_bits(depth);
        self.temps = self.temps - 1;
        let ghost a = symbols::low_bits(v, depth as nat);
        proof {
            assert(self.tape.work@ =~= (k + (top + path)) + row);
            assert(self.tape.alt@ =~= a);
            symbols::effect_hash(row_len, row);
        }
        self.tape.plain(Op::HashRow(row_len), Ghost(k + (top + path)), Ghost(row), Ghost(leaf));
        let ghost u = (top + path) + leaf;
        let ghost c = reaching(root as int, start as int, depth as nat, row_len as nat, v);
        proof {
            lemma_walks(
                self.tape.data@.len(),
                root as int,
                start as int,
                depth,
                row_len as nat,
                v,
            );
            assert(self.tape.work@ =~= k + u);
            assert(none() + a =~= a);
            assert(t.len() == 8 + count);
        }
        self.tape.check(
            Op::MerkleVerify(depth),
            Ghost(k),
            Ghost(u),
            Ghost(none()),
            Ghost(a),
            Ghost(c),
            Ghost(none()),
            Ghost(none()),
        );
        self.temps = self.temps - 8 - count;
        assert(none() + none() =~= none());
        assert(k + none() =~= k);
    }

    /// Folds the row at `row_start` at the kept point.
    fn fold_row(
        &mut self,
        extension: bool,
        row_start: u128,
        count: usize,
        fold_point: &[u128],
        Ghost(k): Ghost<Seq<Val>>,
        Ghost(len): Ghost<nat>,
        Ghost(point): Ghost<Seq<Sym>>,
    ) -> (e: u128)
        requires
            old(self).holds(k, none(), none()),
            row_start + len <= old(self).tape.data@.len(),
            extension ==> 4 * count <= len,
            !extension ==> count <= len,
            count == pow2(fold_point@.len()),
            stand(k, fold_point@, point),
        ensures
            final(self).holds(
                k + sp(
                    symbols::multilinear(
                        reading::row_syms(extension, row_start as int, count as nat),
                        point,
                    ),
                ),
                none(),
                none(),
            ),
            final(self).same(old(self)),
            e == k.len(),
    {
        let ghost s = self.stream();
        let ghost table = reading::row_syms(extension, row_start as int, count as nat);
        assert(self.tape.data.len() == self.tape.data@.len());
        let mut t: usize = 0;
        assert(spread(table.take(0)) =~= none());
        while t < count
            invariant
                t <= count,
                table == reading::row_syms(extension, row_start as int, count as nat),
                s == self.stream(),
                row_start + len <= s.len(),
                s.len() <= usize::MAX,
                extension ==> 4 * count <= len,
                !extension ==> count <= len,
                self.holds(k, spread(table.take(t as int)), none()),
                self.same(old(self)),
            decreases count - t,
        {
            let ghost qs = table.take(t as int);
            let ghost q = table[t as int];
            if extension {
                let at: u128 = row_start + 4 * (t as u128);
                proof {
                    lemma_element(s.len(), at as int);
                }
                self.push_data_ef(at, Ghost(k), Ghost(spread(qs)), Ghost(none()));
            } else {
                let at: u128 = row_start + t as u128;
                let ghost x = datum(at as int);
                proof {
                    assert(x == s[at as int]);
                    assert(s.subrange(at as int, at + 1) =~= seq![x]);
                }
                self.push_data(at, 1, Ghost(k), Ghost(spread(qs)), Ghost(none()));
                self.lift(Ghost(k), Ghost(spread(qs)), Ghost(x), Ghost(none()));
            }
            proof {
                symbols::lemma_spread_push(qs, q);
                assert(qs.push(q) =~= table.take(t + 1));
            }
            t = t + 1;
        }
        assert(table.take(t as int) =~= table);
        let mut i: usize = 0;
        assert(alt_spread(point.take(0)) =~= none());
        while i < fold_point.len()
            invariant
                i <= fold_point@.len(),
                stand(k, fold_point@, point),
                self.holds(k, spread(table), alt_spread(point.take(i as int))),
                self.same(old(self)),
            decreases fold_point@.len() - i,
        {
            let ghost a = alt_spread(point.take(i as int));
            let ghost x = point[i as int];
            assert(fold_point@[i as int] + 4 <= k.len());
            self.push_kept_ef(fold_point[i], Ghost(k), Ghost(spread(table)), Ghost(a));
            self.ef_to_alt(Ghost(k), Ghost(spread(table)), Ghost(x), Ghost(a));
            proof {
                symbols::lemma_spread_push(point.take(i as int), x);
                assert(point.take(i as int).push(x) =~= point.take(i + 1));
            }
            i = i + 1;
        }
        assert(point.take(i as int) =~= point);
        assert(none() + spread(table) =~= spread(table));
        self.evaluate(
            fold_point.len(),
            count,
            Ghost(k),
            Ghost(none()),
            Ghost(table),
            Ghost(point),
        );
        let ghost v = sp(symbols::multilinear(table, point));
        assert(none() + v =~= v);
        proof {
            lemma_one(symbols::multilinear(table, point));
        }
        self.bury(4, Ghost(k), Ghost(v), Ghost(none()))
    }

    /// Replaces the evaluations on top by the multilinear evaluation at the point
    /// on the alternative stack.
    pub(crate) fn evaluate(
        &mut self,
        n: usize,
        count: usize,
        Ghost(k): Ghost<Seq<Val>>,
        Ghost(t): Ghost<Seq<Val>>,
        Ghost(table): Ghost<Seq<Sym>>,
        Ghost(point): Ghost<Seq<Sym>>,
    )
        requires
            old(self).holds(k, t + spread(table), alt_spread(point)),
            table.len() == pow2(n as nat),
            table.len() == count,
            point.len() == n,
        ensures
            final(self).holds(k, t + sp(symbols::multilinear(table, point)), none()),
            final(self).same(old(self)),
    {
        let ghost a = alt_spread(point);
        let ghost v = symbols::multilinear(table, point);
        proof {
            lemma_pow2_pos(n as nat);
            assert(k + (t + spread(table)) =~= (k + t) + spread(table));
            assert(none() + a =~= a);
            symbols::lemma_spread(none(), table);
            assert(none() + spread(table) =~= spread(table));
            symbols::lemma_alt_spread(point);
            symbols::effect_eval(n, spread(table), a);
            lemma_one(v);
        }
        self.tape.emit(
            Op::EvalMultilinear(n),
            Ghost(k + t),
            Ghost(spread(table)),
            Ghost(none()),
            Ghost(a),
            Ghost(sp(v)),
            Ghost(none()),
        );
        proof {
            assert((k + t) + sp(v) =~= k + (t + sp(v)));
            assert(none() + none() =~= none());
        }
        assert(self.tape.ops.len() == self.tape.ops@.len());
        self.temps = self.temps - 4 * (count as u128) + 4;
    }

    /// Authenticates each query's row against the root at `root`, folds it at
    /// `fold_point` and turns the index into the point `gen^index`. Returns the kept
    /// folds and points.
    pub(crate) fn stir(
        &mut self,
        opening: &Opening,
        queries: &[Query],
        starts: &[u128],
        root: u128,
        depth: usize,
        fold_point: &[u128],
        gen: u32,
        Ghost(k): Ghost<Seq<Val>>,
        Ghost(idx): Ghost<Seq<int>>,
        Ghost(vals): Ghost<Seq<Val>>,
        Ghost(point): Ghost<Seq<Sym>>,
        Ghost(len): Ghost<nat>,
        Ghost(count): Ghost<nat>,
    ) -> (r: (Vec<u128>, Vec<u128>, Ghost<Seq<Val>>))
        requires
            old(self).holds(k, none(), none()),
            queried(k, queries@, idx, vals),
            forall|q: int| 0 <= q < vals.len() ==> natural(#[trigger] vals[q]),
            opening.rows@.len() == idx.len(),
            starts@.len() == idx.len(),
            forall|q: int|
                0 <= q < starts@.len() ==> #[trigger] starts@[q] + 8 * depth + len
                    <= old(self).tape.data@.len(),
            forall|q: int| 0 <= q < idx.len() ==> (#[trigger] opening.rows@[q])@.len() == len,
            root + 8 <= old(self).tape.data@.len(),
            stand(k, fold_point@, point),
            count == (if opening.extension {
                len / 4
            } else {
                len
            }),
            count == pow2(point.len()),
        ensures
            final(self).holds(r.2@, none(), none()),
            prefix(k, r.2@),
            final(self).tape.data@ == old(self).tape.data@,
            final(self).samples@ == old(self).samples@,
            final(self).census() == script::together(
                old(self).census(),
                script::walked(idx.len()),
            ),
            stand(
                r.2@,
                r.0@,
                fold_syms(opening.extension, starts@, depth as nat, count, point),
            ),
            bases_stand(r.2@, r.1@, point_vals(gen as int, depth as nat, vals)),
            forall|u: Seq<int>| #[trigger]
                (final(self).tape.ok@)(u) == ((old(self).tape.ok@)(u) && rows_reach(
                    u,
                    root as int,
                    starts@,
                    depth as nat,
                    len,
                    vals,
                    idx.len() as int,
                )),
    {
        let mut folds: Vec<u128> = Vec::new();
        let mut points: Vec<u128> = Vec::new();
        let ghost all_folds = fold_syms(opening.extension, starts@, depth as nat, count, point);
        let ghost all_points = point_vals(gen as int, depth as nat, vals);
        let ghost mut cur = k;
        let mut j: usize = 0;
        while j < queries.len()
            invariant
                j <= queries@.len(),
                queried(k, queries@, idx, vals),
                forall|q: int| 0 <= q < vals.len() ==> natural(#[trigger] vals[q]),
                opening.rows@.len() == idx.len(),
                starts@.len() == idx.len(),
                forall|q: int|
                    0 <= q < starts@.len() ==> #[trigger] starts@[q] + 8 * depth + len
                        <= self.tape.data@.len(),
                forall|q: int| 0 <= q < idx.len() ==> (#[trigger] opening.rows@[q])@.len() == len,
                root + 8 <= self.tape.data@.len(),
                stand(k, fold_point@, point),
                count == (if opening.extension {
                    len / 4
                } else {
                    len
                }),
                count == pow2(point.len()),
                all_folds == fold_syms(opening.extension, starts@, depth as nat, count, point),
                all_points == point_vals(gen as int, depth as nat, vals),
                self.holds(cur, none(), none()),
                prefix(k, cur),
                self.tape.data@ == old(self).tape.data@,
                self.samples@ == old(self).samples@,
                self.census() == script::together(
                    old(self).census(),
                    script::walked(j as nat),
                ),
                stand(cur, folds@, all_folds.take(j as int)),
                bases_stand(cur, points@, all_points.take(j as int)),
                forall|u: Seq<int>| #[trigger]
                    (self.tape.ok@)(u) == ((old(self).tape.ok@)(u) && rows_reach(
                        u,
                        root as int,
                        starts@,
                        depth as nat,
                        len,
                        vals,
                        j as int,
                    )),
            decreases queries@.len() - j,
        {
            let q = queries[j];
            let start = starts[j];
            let row_len = opening.rows[j].len();
            let elems = if opening.extension {
                row_len / 4
            } else {
                row_len
            };
            let ghost v = vals[j as int];
            let ghost passed = self.tape.ok@;
            proof {
                lemma_queried(k, cur, queries@, idx, vals);
                assert(queries@[j as int].entry < cur.len());
                assert(natural(vals[j as int]));
                assert(starts@[j as int] + 8 * depth + len <= self.tape.data@.len());
                assert(opening.rows@[j as int]@.len() == len);
                assert(row_len == len);
            }
            self.authenticate(root, start, depth, row_len, q.entry, Ghost(cur));
            assert(self.tape.data.len() == self.tape.data@.len());
            let row_start: u128 = start + 8 * (depth as u128);
            proof {
                symbols::lemma_stand(k, cur, fold_point@, point);
            }
            let fold = self.fold_row(
                opening.extension,
                row_start,
                elems,
                fold_point,
                Ghost(cur),
                Ghost(len),
                Ghost(point),
            );
            let ghost f = all_folds[j as int];
            let ghost mid = cur + sp(f);
            proof {
                lemma_appended(cur, f);
                symbols::lemma_stand_push(cur, mid, folds@, all_folds.take(j as int), fold, f);
                assert(all_folds.take(j as int).push(f) =~= all_folds.take(j + 1));
                lemma_bases(cur, mid, points@, all_points.take(j as int));
                assert(mid[q.entry as int] == cur[q.entry as int]);
            }
            folds.push(fold);
            let ghost z = all_points[j as int];
            let at = self.raise(q.entry, gen, depth, Ghost(mid), Ghost(v));
            proof {
                let last = mid + seq![z];
                lemma_prefix_append(mid, seq![z]);
                symbols::lemma_stand(mid, last, folds@, all_folds.take(j + 1));
                lemma_bases(mid, last, points@, all_points.take(j as int));
                assert(last[at as int] == z);
                assert(all_points.take(j as int).push(z) =~= all_points.take(j + 1));
                assert(bases_stand(last, points@.push(at), all_points.take(j + 1)));
                cur = last;
            }
            points.push(at);
            j = j + 1;
            proof {
                let (r, d, s) = (root as int, depth as nat, starts@);
                assert forall|u: Seq<int>| #[trigger] (self.tape.ok@)(u) == ((old(self).tape.ok@)(
                    u,
                ) && rows_reach(u, r, s, d, len, vals, j as int)) by {
                    assert((self.tape.ok@)(u) == (passed(u) && row_reaches(
                        u,
                        r,
                        s,
                        d,
                        len,
                        vals,
                        j - 1,
                    )));
                    if rows_reach(u, r, s, d, len, vals, j - 1) && row_reaches(
                        u,
                        r,
                        s,
                        d,
                        len,
                        vals,
                        j - 1,
                    ) {
                        assert forall|q: int| 0 <= q < j implies #[trigger] row_reaches(
                            u,
                            r,
                            s,
                            d,
                            len,
                            vals,
                            q,
                        ) by {
                            if q < j - 1 {
                                assert(row_reaches(u, r, s, d, len, vals, q));
                            }
                        }
                    }
                }
            }
        }
        proof {
            assert(all_folds.take(j as int) =~= all_folds);
            assert(all_points.take(j as int) =~= all_points);
        }
        (folds, points, Ghost(cur))
    }

    /// Keeps the power of a constant at a kept index.
    fn raise(
        &mut self,
        entry: u128,
        gen: u32,
        bits: usize,
        Ghost(k): Ghost<Seq<Val>>,
        Ghost(v): Ghost<Val>,
    ) -> (e: u128)
        requires
            old(self).holds(k, none(), none()),
            entry < k.len(),
            k[entry as int] == v,
        ensures
            final(self).holds(
                k + seq![symbols::power(gen as int, bits as nat, v)],
                none(),
                none(),
            ),
            final(self).same(old(self)),
            e == k.len(),
    {
        let ghost one = seq![v];
        let ghost z = seq![symbols::power(gen as int, bits as nat, v)];
        self.push_kept(entry, 1, Ghost(k), Ghost(none()), Ghost(none()));
        proof {
            assert(self.tape.work@ =~= k + one);
            symbols::effect_base(v, 0, gen, bits);
        }
        self.tape.plain(Op::PowConst { gen, bits }, Ghost(k), Ghost(one), Ghost(z));
        self.bury(1, Ghost(k), Ghost(z), Ghost(none()))
    }
}

} // verus!

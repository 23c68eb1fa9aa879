//! Expanding a pruned multi-opening of a binary Merkle tree into one full path
//! per query.
//!
//! A pruned proof authenticates every queried leaf with the minimal set of
//! *boundary* sibling digests: a sibling that other queried leaves can
//! reconstruct is left out. The walk climbs all queried leaves together; at
//! each level a node's sibling is either a boundary digest, which the proof
//! supplies, or a node the walk has already computed. Recording whichever it
//! was, per leaf, turns one amortized proof into independent paths.
//!
//! The wire order is level 0 first, and within a level by ascending index.
use vstd::arithmetic::power2::pow2;
use vstd::prelude::*;

verus! {

/// A two-to-one compression of digests.
pub trait Compressor {
    type D: Copy;

    /// The mathematical digest.
    type V;

    spec fn model(d: Self::D) -> Self::V;

    /// The digest of the parent of two nodes.
    spec fn node(left: Self::V, right: Self::V) -> Self::V;

    fn compress(left: &Self::D, right: &Self::D) -> (d: Self::D)
        ensures
            Self::model(d) == Self::node(Self::model(*left), Self::model(*right)),
    ;
}

/// What went wrong expanding a pruned proof.
#[derive(Debug, Clone, Copy, PartialEq, Eq, Structural)]
pub enum Error {
    /// The proof carried a different number of boundary digests than the
    /// frontier over these indices requires.
    SiblingCount { expected: usize, got: usize },
    /// A queried index does not name a leaf of a tree of this depth.
    IndexOutOfRange { index: usize, depth: usize },
    /// A query has no opened row, or a row has no leaf digest.
    MissingLeaf { index: usize },
}

/// One query's complete authentication path.
#[derive(Debug, Clone, PartialEq, Eq)]
pub struct Path<D> {
    /// The leaf's index, which also gives the direction bits.
    pub index: usize,
    /// The leaf digest: the hash of the opened row.
    pub leaf: D,
    /// One sibling per level, level 0 first.
    pub siblings: Vec<D>,
}

// ---------------------------------------------------------------------------
// The walk over indices.
// ---------------------------------------------------------------------------

/// The indices of a list of machine words.
pub open spec fn ints(s: Seq<usize>) -> Seq<int> {
    Seq::new(s.len(), |i: int| s[i] as int)
}

pub open spec fn increasing(s: Seq<int>) -> bool {
    forall|i: int, j: int| 0 <= i < j < s.len() ==> (#[trigger] s[i]) < (#[trigger] s[j])
}

/// The other child of `c`'s parent.
pub open spec fn sib(c: int) -> int {
    if c % 2 == 0 {
        c + 1
    } else {
        c - 1
    }
}

/// The first two nodes share a parent.
pub open spec fn paired(s: Seq<int>) -> bool {
    s.len() >= 2 && s[0] % 2 == 0 && s[1] == s[0] + 1
}

/// The nodes after the first group.
pub open spec fn rest(s: Seq<int>) -> Seq<int> {
    if paired(s) {
        s.skip(2)
    } else {
        s.skip(1)
    }
}

/// The parents of an increasing list of nodes, in order.
pub open spec fn parents(s: Seq<int>) -> Seq<int>
    decreases s.len(),
{
    if s.len() == 0 {
        Seq::empty()
    } else {
        seq![s[0] / 2] + parents(rest(s))
    }
}

/// The siblings that the nodes do not cover, in order.
pub open spec fn missing(s: Seq<int>) -> Seq<int>
    decreases s.len(),
{
    if s.len() == 0 {
        Seq::empty()
    } else if paired(s) {
        missing(rest(s))
    } else {
        seq![sib(s[0])] + missing(rest(s))
    }
}

/// The nodes above the leaves `s` at `level`.
pub open spec fn frontier(s: Seq<int>, level: nat) -> Seq<int>
    decreases level,
{
    if level == 0 {
        s
    } else {
        parents(frontier(s, (level - 1) as nat))
    }
}

/// The boundary digests of the levels below `level`.
pub open spec fn boundary_count(s: Seq<int>, level: nat) -> nat
    decreases level,
{
    if level == 0 {
        0
    } else {
        boundary_count(s, (level - 1) as nat) + missing(frontier(s, (level - 1) as nat)).len()
    }
}

/// The index of the node above leaf `i` at `level`.
pub open spec fn ancestor(i: int, level: nat) -> int
    decreases level,
{
    if level == 0 {
        i
    } else {
        ancestor(i, (level - 1) as nat) / 2
    }
}

/// `x` put into its place in an increasing list, once.
pub open spec fn inserted(s: Seq<int>, x: int) -> Seq<int>
    decreases s.len(),
{
    if s.len() == 0 || s.last() < x {
        s.push(x)
    } else if s.last() == x {
        s
    } else {
        inserted(s.drop_last(), x).push(s.last())
    }
}

/// The distinct values of `s`, increasing.
pub open spec fn sorted_unique(s: Seq<int>) -> Seq<int>
    decreases s.len(),
{
    if s.len() == 0 {
        Seq::empty()
    } else {
        inserted(sorted_unique(s.drop_last()), s.last())
    }
}

// ---------------------------------------------------------------------------
// The walk over digests.
// ---------------------------------------------------------------------------

pub open spec fn models<C: Compressor>(ds: Seq<C::D>) -> Seq<C::V> {
    Seq::new(ds.len(), |i: int| C::model(ds[i]))
}

/// The sibling digest of each node, `bnd` supplying the uncovered ones in
/// order.
pub open spec fn siblings<C: Compressor>(s: Seq<int>, digs: Seq<C::V>, bnd: Seq<C::V>) -> Seq<C::V>
    decreases s.len(),
{
    if s.len() == 0 {
        Seq::empty()
    } else if paired(s) {
        seq![digs[1], digs[0]] + siblings::<C>(s.skip(2), digs.skip(2), bnd)
    } else {
        seq![bnd[0]] + siblings::<C>(s.skip(1), digs.skip(1), bnd.skip(1))
    }
}

/// The digest of each parent.
pub open spec fn parent_digests<C: Compressor>(
    s: Seq<int>,
    digs: Seq<C::V>,
    bnd: Seq<C::V>,
) -> Seq<C::V>
    decreases s.len(),
{
    if s.len() == 0 {
        Seq::empty()
    } else if paired(s) {
        seq![C::node(digs[0], digs[1])] + parent_digests::<C>(s.skip(2), digs.skip(2), bnd)
    } else if s[0] % 2 == 0 {
        seq![C::node(digs[0], bnd[0])] + parent_digests::<C>(s.skip(1), digs.skip(1), bnd.skip(1))
    } else {
        seq![C::node(bnd[0], digs[0])] + parent_digests::<C>(s.skip(1), digs.skip(1), bnd.skip(1))
    }
}

/// The digests of `frontier(s, level)`.
pub open spec fn level_digests<C: Compressor>(
    s: Seq<int>,
    leaves: Seq<C::V>,
    bnd: Seq<C::V>,
    level: nat,
) -> Seq<C::V>
    decreases level,
{
    if level == 0 {
        leaves
    } else {
        let below = (level - 1) as nat;
        parent_digests::<C>(
            frontier(s, below),
            level_digests::<C>(s, leaves, bnd, below),
            bnd.skip(boundary_count(s, below) as int),
        )
    }
}

/// The sibling digests of the nodes of `frontier(s, level)`.
pub open spec fn level_siblings<C: Compressor>(
    s: Seq<int>,
    leaves: Seq<C::V>,
    bnd: Seq<C::V>,
    level: nat,
) -> Seq<C::V> {
    siblings::<C>(
        frontier(s, level),
        level_digests::<C>(s, leaves, bnd, level),
        bnd.skip(boundary_count(s, level) as int),
    )
}

/// The sibling of leaf `i`'s ancestor at `level`.
pub open spec fn path_sibling<C: Compressor>(
    s: Seq<int>,
    leaves: Seq<C::V>,
    bnd: Seq<C::V>,
    i: int,
    level: nat,
) -> C::V {
    level_siblings::<C>(s, leaves, bnd, level)[frontier(s, level).index_of(ancestor(i, level))]
}

/// The leaf digest of `i`: that of its first query.
pub open spec fn leaf_of<C: Compressor>(indices: Seq<int>, leaves: Seq<C::V>, i: int) -> C::V {
    leaves[first_position(indices, i)]
}

/// The first place of `x` in `s`.
pub open spec fn first_position(s: Seq<int>, x: int) -> int
    decreases s.len(),
{
    if s.len() == 0 || s[0] == x {
        0
    } else {
        1 + first_position(s.skip(1), x)
    }
}

/// The leaf digests of the distinct queried indices.
pub open spec fn unique_leaves<C: Compressor>(indices: Seq<int>, leaves: Seq<C::V>) -> Seq<C::V> {
    let s = sorted_unique(indices);
    Seq::new(s.len(), |k: int| leaf_of::<C>(indices, leaves, s[k]))
}

/// The digest a path climbs to after `level` levels.
pub open spec fn climbed<C: Compressor>(i: int, leaf: C::V, sibs: Seq<C::V>, level: nat) -> C::V
    decreases level,
{
    if level == 0 {
        leaf
    } else {
        let below = (level - 1) as nat;
        let cur = climbed::<C>(i, leaf, sibs, below);
        if ancestor(i, below) % 2 == 1 {
            C::node(sibs[below as int], cur)
        } else {
            C::node(cur, sibs[below as int])
        }
    }
}

/// Every query's leaf is in range and there is a leaf digest per query.
pub open spec fn first_out_of_range(indices: Seq<int>, log_leaves: nat) -> int
    decreases indices.len(),
{
    if indices.len() == 0 || indices[0] >= pow2(log_leaves) {
        0
    } else {
        1 + first_out_of_range(indices.skip(1), log_leaves)
    }
}

/// What an expansion yields: one path per query, in query order.
pub open spec fn expansion<C: Compressor>(
    boundaries: Seq<C::V>,
    indices: Seq<int>,
    leaves: Seq<C::V>,
    depth: nat,
    paths: Seq<Path<C::D>>,
) -> bool {
    let s = sorted_unique(indices);
    let ul = unique_leaves::<C>(indices, leaves);
    &&& paths.len() == indices.len()
    &&& forall|q: int|
        0 <= q < indices.len() ==> {
            let p = #[trigger] paths[q];
            &&& p.index == indices[q]
            &&& C::model(p.leaf) == leaf_of::<C>(indices, leaves, indices[q])
            &&& p.siblings@.len() == depth
            &&& forall|l: int|
                0 <= l < depth ==> C::model(#[trigger] p.siblings@[l]) == path_sibling::<C>(
                    s,
                    ul,
                    boundaries,
                    indices[q],
                    l as nat,
                )
        }
}

// ---------------------------------------------------------------------------
// Facts about the walk.
// ---------------------------------------------------------------------------

proof fn lemma_rest(s: Seq<int>)
    requires
        increasing(s),
        s.len() > 0,
    ensures
        increasing(rest(s)),
        forall|k: int| 0 <= k < rest(s).len() ==> (#[trigger] rest(s)[k]) / 2 > s[0] / 2,
{
    let r = rest(s);
    let d = if paired(s) {
        2int
    } else {
        1int
    };
    assert forall|i: int, j: int| 0 <= i < j < r.len() implies (#[trigger] r[i]) < (
    #[trigger] r[j]) by {
        assert(s[i + d] < s[j + d]);
    }
    assert forall|k: int| 0 <= k < r.len() implies (#[trigger] r[k]) / 2 > s[0] / 2 by {
        assert(r[k] == s[k + d]);
        assert(s[0] < s[k + d]);
        assert(s.len() >= 2);
        assert(s[0] < s[1]);
        if k + d > 1 {
            assert(s[1] < s[k + d]);
        }
    }
}

/// The parents of an increasing list are increasing, and are the halves of its
/// nodes.
pub proof fn lemma_parents(s: Seq<int>)
    requires
        increasing(s),
    ensures
        increasing(parents(s)),
        parents(s).len() <= s.len(),
        forall|k: int| 0 <= k < parents(s).len() ==> s.len() > 0 && (#[trigger] parents(s)[k])
            >= s[0] / 2,
        forall|k: int| 0 <= k < s.len() ==> parents(s).contains(#[trigger] s[k] / 2),
    decreases s.len(),
{
    if s.len() > 0 {
        let r = rest(s);
        let p = parents(s);
        let q = parents(r);
        lemma_rest(s);
        lemma_parents(r);
        assert forall|k: int| 0 <= k < q.len() implies (#[trigger] q[k]) > s[0] / 2 by {
            assert(q[k] >= r[0] / 2);
            assert(r[0] / 2 > s[0] / 2);
        }
        assert forall|i: int, j: int| 0 <= i < j < p.len() implies (#[trigger] p[i]) < (
        #[trigger] p[j]) by {
            if i > 0 {
                assert(q[i - 1] < q[j - 1]);
            } else {
                assert(q[j - 1] > s[0] / 2);
            }
        }
        assert forall|k: int| 0 <= k < p.len() implies (#[trigger] p[k]) >= s[0] / 2 by {
            if k > 0 {
                assert(p[k] == q[k - 1]);
            }
        }
        let d = if paired(s) {
            2int
        } else {
            1int
        };
        assert forall|k: int| 0 <= k < s.len() implies p.contains(#[trigger] s[k] / 2) by {
            if k < d {
                assert(p[0] == s[0] / 2);
                assert(s[k] / 2 == s[0] / 2);
            } else {
                assert(s[k] == r[k - d]);
                assert(q.contains(r[k - d] / 2));
                let j = choose|j: int| 0 <= j < q.len() && q[j] == r[k - d] / 2;
                assert(p[j + 1] == q[j]);
            }
        }
    }
}

pub proof fn lemma_frontier_increasing(s: Seq<int>, level: nat)
    requires
        increasing(s),
    ensures
        increasing(frontier(s, level)),
        frontier(s, level).len() <= s.len(),
    decreases level,
{
    if level > 0 {
        lemma_frontier_increasing(s, (level - 1) as nat);
        lemma_parents(frontier(s, (level - 1) as nat));
    }
}

/// The frontier holds the ancestor of every leaf.
pub proof fn lemma_frontier_covers(s: Seq<int>, level: nat, k: int)
    requires
        increasing(s),
        0 <= k < s.len(),
    ensures
        frontier(s, level).contains(ancestor(s[k], level)),
    decreases level,
{
    if level > 0 {
        let below = (level - 1) as nat;
        lemma_frontier_covers(s, below, k);
        lemma_frontier_increasing(s, below);
        let f = frontier(s, below);
        let j = choose|j: int| 0 <= j < f.len() && f[j] == ancestor(s[k], below);
        lemma_parents(f);
        assert(parents(f).contains(f[j] / 2));
    }
}

proof fn lemma_index_of(s: Seq<int>, k: int)
    requires
        increasing(s),
        0 <= k < s.len(),
    ensures
        s.index_of(s[k]) == k,
{
    let j = s.index_of(s[k]);
    assert(0 <= j < s.len() && s[j] == s[k]);
    if j < k {
        assert(s[j] < s[k]);
    } else if k < j {
        assert(s[k] < s[j]);
    }
}

proof fn lemma_sibling_lens<C: Compressor>(s: Seq<int>, digs: Seq<C::V>, bnd: Seq<C::V>)
    ensures
        siblings::<C>(s, digs, bnd).len() == s.len(),
        parent_digests::<C>(s, digs, bnd).len() == parents(s).len(),
    decreases s.len(),
{
    if s.len() > 0 {
        if paired(s) {
            lemma_sibling_lens::<C>(s.skip(2), digs.skip(2), bnd);
        } else {
            lemma_sibling_lens::<C>(s.skip(1), digs.skip(1), bnd.skip(1));
        }
    }
}

/// A node and its sibling compress to their parent.
proof fn lemma_parent_of<C: Compressor>(
    s: Seq<int>,
    digs: Seq<C::V>,
    bnd: Seq<C::V>,
    k: int,
    j: int,
)
    requires
        increasing(s),
        digs.len() == s.len(),
        0 <= k < s.len(),
        0 <= j < parents(s).len(),
        parents(s)[j] == s[k] / 2,
    ensures
        parent_digests::<C>(s, digs, bnd)[j] == (if s[k] % 2 == 1 {
            C::node(siblings::<C>(s, digs, bnd)[k], digs[k])
        } else {
            C::node(digs[k], siblings::<C>(s, digs, bnd)[k])
        }),
    decreases s.len(),
{
    lemma_rest(s);
    lemma_parents(s);
    lemma_parents(rest(s));
    lemma_sibling_lens::<C>(s, digs, bnd);
    let d = if paired(s) {
        2int
    } else {
        1int
    };
    if k < d {
        assert(s[k] / 2 == s[0] / 2);
        if j > 0 {
            assert(parents(s)[0] < parents(s)[j]);
        }
    } else {
        let r = rest(s);
        assert(s[k] == r[k - d]);
        assert(r[k - d] / 2 > s[0] / 2);
        if j == 0 {
            assert(parents(s)[0] == s[0] / 2);
        }
        assert(parents(s)[j] == parents(r)[j - 1]);
        if paired(s) {
            lemma_parent_of::<C>(s.skip(2), digs.skip(2), bnd, k - 2, j - 1);
        } else {
            lemma_parent_of::<C>(s.skip(1), digs.skip(1), bnd.skip(1), k - 1, j - 1);
        }
    }
}

pub proof fn lemma_level_lens<C: Compressor>(
    s: Seq<int>,
    leaves: Seq<C::V>,
    bnd: Seq<C::V>,
    level: nat,
)
    requires
        leaves.len() == s.len(),
    ensures
        level_digests::<C>(s, leaves, bnd, level).len() == frontier(s, level).len(),
        level_siblings::<C>(s, leaves, bnd, level).len() == frontier(s, level).len(),
    decreases level,
{
    if level > 0 {
        let below = (level - 1) as nat;
        lemma_level_lens::<C>(s, leaves, bnd, below);
        lemma_sibling_lens::<C>(
            frontier(s, below),
            level_digests::<C>(s, leaves, bnd, below),
            bnd.skip(boundary_count(s, below) as int),
        );
    }
    lemma_sibling_lens::<C>(
        frontier(s, level),
        level_digests::<C>(s, leaves, bnd, level),
        bnd.skip(boundary_count(s, level) as int),
    );
}

/// Every expanded path climbs to the node that the walk over all queried
/// leaves computes above its leaf: queries under one node reach one digest.
pub proof fn law_paths_reach_the_walk<C: Compressor>(
    s: Seq<int>,
    leaves: Seq<C::V>,
    bnd: Seq<C::V>,
    k: int,
    sibs: Seq<C::V>,
    level: nat,
)
    requires
        increasing(s),
        leaves.len() == s.len(),
        0 <= k < s.len(),
        sibs.len() >= level,
        forall|l: int|
            0 <= l < level ==> #[trigger] sibs[l] == path_sibling::<C>(
                s,
                leaves,
                bnd,
                s[k],
                l as nat,
            ),
    ensures
        climbed::<C>(s[k], leaves[k], sibs, level) == level_digests::<C>(s, leaves, bnd, level)[
            frontier(s, level).index_of(ancestor(s[k], level))
        ],
    decreases level,
{
    if level == 0 {
        lemma_index_of(s, k);
    } else {
        let below = (level - 1) as nat;
        law_paths_reach_the_walk::<C>(s, leaves, bnd, k, sibs, below);
        let f = frontier(s, below);
        let g = frontier(s, level);
        lemma_frontier_increasing(s, below);
        lemma_frontier_increasing(s, level);
        lemma_frontier_covers(s, below, k);
        lemma_frontier_covers(s, level, k);
        let a = f.index_of(ancestor(s[k], below));
        let b = g.index_of(ancestor(s[k], level));
        lemma_level_lens::<C>(s, leaves, bnd, below);
        lemma_parent_of::<C>(
            f,
            level_digests::<C>(s, leaves, bnd, below),
            bnd.skip(boundary_count(s, below) as int),
            a,
            b,
        );
        assert(sibs[below as int] == path_sibling::<C>(s, leaves, bnd, s[k], below));
    }
}

/// The boundary children are exactly the uncovered siblings of covered nodes.
pub proof fn law_missing(s: Seq<int>, c: int)
    requires
        increasing(s),
    ensures
        missing(s).contains(c) <==> (s.contains(sib(c)) && !s.contains(c)),
    decreases s.len(),
{
    if s.len() > 0 {
        let r = rest(s);
        let m = missing(s);
        lemma_rest(s);
        law_missing(r, c);
        let d = if paired(s) {
            2int
        } else {
            1int
        };
        // nodes of the rest lie under other parents than the first group
        assert forall|x: int| s.contains(x) implies r.contains(x) || x == s[0] || (paired(s) && x
            == s[1]) by {
            let k = choose|k: int| 0 <= k < s.len() && s[k] == x;
            if k >= d {
                assert(r[k - d] == x);
            }
        }
        assert forall|x: int| r.contains(x) implies s.contains(x) && x / 2 > s[0] / 2 by {
            let k = choose|k: int| 0 <= k < r.len() && r[k] == x;
            assert(s[k + d] == x);
        }
        assert(s.contains(s[0]));
        if paired(s) {
            assert(s.contains(s[1]));
            assert(m =~= missing(r));
        } else {
            let mr = missing(r);
            assert(m[0] == sib(s[0]));
            assert forall|k: int| 0 <= k < mr.len() implies m[k + 1] == mr[k] by {}
            if m.contains(c) {
                let k = choose|k: int| 0 <= k < m.len() && m[k] == c;
                if k > 0 {
                    assert(mr[k - 1] == c);
                } else {
                    // the sibling of the first node is not among the nodes
                    if s.contains(c) {
                        let j = choose|j: int| 0 <= j < s.len() && s[j] == c;
                        assert(s[0] < s[j] || j == 0);
                        if s[0] % 2 == 0 && j > 1 {
                            assert(s[0] < s[1] < s[j]);
                        }
                    }
                }
            }
            if s.contains(sib(c)) && !s.contains(c) {
                if r.contains(sib(c)) {
                    let k = choose|k: int| 0 <= k < mr.len() && mr[k] == c;
                    assert(m[k + 1] == c);
                } else {
                    assert(sib(c) == s[0]);
                    assert(c == sib(s[0]));
                }
            }
        }
    }
}

// ---------------------------------------------------------------------------
// Openings of a whole tree.
// ---------------------------------------------------------------------------

/// Node `i` at `level` of the tree over the leaf digests `leaf`.
pub open spec fn tree_node<C: Compressor>(leaf: spec_fn(int) -> C::V, level: nat, i: int) -> C::V
    decreases level,
{
    if level == 0 {
        leaf(i)
    } else {
        let below = (level - 1) as nat;
        C::node(
            tree_node::<C>(leaf, below, 2 * i),
            tree_node::<C>(leaf, below, 2 * i + 1),
        )
    }
}

/// The boundary digests of the levels below `depth` are the tree's own nodes.
pub open spec fn true_boundaries<C: Compressor>(
    leaf: spec_fn(int) -> C::V,
    s: Seq<int>,
    bnd: Seq<C::V>,
    depth: nat,
) -> bool {
    &&& bnd.len() == boundary_count(s, depth)
    &&& forall|level: nat, k: int|
        level < depth && 0 <= k < missing(frontier(s, level)).len()
            ==> #[trigger] bnd.skip(boundary_count(s, level) as int)[k] == tree_node::<C>(
            leaf,
            level,
            missing(frontier(s, level))[k],
        )
}

/// True digests have true siblings and true parents.
proof fn lemma_true_level<C: Compressor>(
    leaf: spec_fn(int) -> C::V,
    level: nat,
    f: Seq<int>,
    digs: Seq<C::V>,
    bnd: Seq<C::V>,
)
    requires
        increasing(f),
        digs.len() == f.len(),
        bnd.len() >= missing(f).len(),
        forall|k: int| 0 <= k < f.len() ==> #[trigger] digs[k] == tree_node::<C>(leaf, level, f[k]),
        forall|k: int|
            0 <= k < missing(f).len() ==> #[trigger] bnd[k] == tree_node::<C>(
                leaf,
                level,
                missing(f)[k],
            ),
    ensures
        siblings::<C>(f, digs, bnd).len() == f.len(),
        parent_digests::<C>(f, digs, bnd).len() == parents(f).len(),
        forall|k: int|
            0 <= k < f.len() ==> #[trigger] siblings::<C>(f, digs, bnd)[k] == tree_node::<C>(
                leaf,
                level,
                sib(f[k]),
            ),
        forall|k: int|
            0 <= k < parents(f).len() ==> #[trigger] parent_digests::<C>(f, digs, bnd)[k]
                == tree_node::<C>(leaf, level + 1, parents(f)[k]),
    decreases f.len(),
{
    lemma_sibling_lens::<C>(f, digs, bnd);
    if f.len() > 0 {
        lemma_rest(f);
        let r = rest(f);
        let sibs = siblings::<C>(f, digs, bnd);
        let ups = parent_digests::<C>(f, digs, bnd);
        assert(digs[0] == tree_node::<C>(leaf, level, f[0]));
        if paired(f) {
            assert(digs[1] == tree_node::<C>(leaf, level, f[1]));
            let ds = digs.skip(2);
            assert forall|k: int| 0 <= k < r.len() implies #[trigger] ds[k] == tree_node::<C>(
                leaf,
                level,
                r[k],
            ) by {
                assert(ds[k] == digs[k + 2]);
            }
            lemma_true_level::<C>(leaf, level, r, ds, bnd);
            assert forall|k: int| 0 <= k < f.len() implies #[trigger] sibs[k] == tree_node::<C>(
                leaf,
                level,
                sib(f[k]),
            ) by {
                if k >= 2 {
                    assert(sibs[k] == siblings::<C>(r, ds, bnd)[k - 2]);
                    assert(f[k] == r[k - 2]);
                }
            }
            assert forall|k: int| 0 <= k < parents(f).len() implies #[trigger] ups[k]
                == tree_node::<C>(leaf, level + 1, parents(f)[k]) by {
                if k >= 1 {
                    assert(ups[k] == parent_digests::<C>(r, ds, bnd)[k - 1]);
                    assert(parents(f)[k] == parents(r)[k - 1]);
                } else {
                    assert(2 * (f[0] / 2) == f[0]);
                }
            }
        } else {
            let (ds, bs) = (digs.skip(1), bnd.skip(1));
            assert(missing(f)[0] == sib(f[0]));
            assert(bnd[0] == tree_node::<C>(leaf, level, sib(f[0])));
            assert forall|k: int| 0 <= k < r.len() implies #[trigger] ds[k] == tree_node::<C>(
                leaf,
                level,
                r[k],
            ) by {
                assert(ds[k] == digs[k + 1]);
            }
            assert forall|k: int| 0 <= k < missing(r).len() implies #[trigger] bs[k]
                == tree_node::<C>(leaf, level, missing(r)[k]) by {
                assert(missing(f)[k + 1] == missing(r)[k]);
                assert(bnd[k + 1] == tree_node::<C>(leaf, level, missing(f)[k + 1]));
                assert(bs[k] == bnd[k + 1]);
            }
            lemma_true_level::<C>(leaf, level, r, ds, bs);
            assert forall|k: int| 0 <= k < f.len() implies #[trigger] sibs[k] == tree_node::<C>(
                leaf,
                level,
                sib(f[k]),
            ) by {
                if k >= 1 {
                    assert(sibs[k] == siblings::<C>(r, ds, bs)[k - 1]);
                    assert(f[k] == r[k - 1]);
                }
            }
            assert forall|k: int| 0 <= k < parents(f).len() implies #[trigger] ups[k]
                == tree_node::<C>(leaf, level + 1, parents(f)[k]) by {
                if k >= 1 {
                    assert(ups[k] == parent_digests::<C>(r, ds, bs)[k - 1]);
                    assert(parents(f)[k] == parents(r)[k - 1]);
                } else if f[0] % 2 == 0 {
                    assert(2 * (f[0] / 2) == f[0]);
                } else {
                    assert(2 * (f[0] / 2) + 1 == f[0]);
                }
            }
        }
    }
}

/// The walk over true leaves and boundaries computes the tree's own nodes.
proof fn lemma_true_walk<C: Compressor>(
    leaf: spec_fn(int) -> C::V,
    s: Seq<int>,
    leaves: Seq<C::V>,
    bnd: Seq<C::V>,
    depth: nat,
    level: nat,
)
    requires
        increasing(s),
        leaves.len() == s.len(),
        forall|k: int| 0 <= k < s.len() ==> #[trigger] leaves[k] == leaf(s[k]),
        true_boundaries::<C>(leaf, s, bnd, depth),
        level <= depth,
    ensures
        level_digests::<C>(s, leaves, bnd, level).len() == frontier(s, level).len(),
        forall|k: int|
            0 <= k < frontier(s, level).len() ==> #[trigger] level_digests::<C>(
                s,
                leaves,
                bnd,
                level,
            )[k] == tree_node::<C>(leaf, level, frontier(s, level)[k]),
        level < depth ==> level_siblings::<C>(s, leaves, bnd, level).len() == frontier(
            s,
            level,
        ).len(),
        level < depth ==> forall|k: int|
            0 <= k < frontier(s, level).len() ==> #[trigger] level_siblings::<C>(
                s,
                leaves,
                bnd,
                level,
            )[k] == tree_node::<C>(leaf, level, sib(frontier(s, level)[k])),
    decreases level,
{
    lemma_frontier_increasing(s, level);
    if level > 0 {
        let below = (level - 1) as nat;
        lemma_true_walk::<C>(leaf, s, leaves, bnd, depth, below);
        lemma_frontier_increasing(s, below);
        lemma_boundary_count_monotone(s, level, depth);
        let b = bnd.skip(boundary_count(s, below) as int);
        let f = frontier(s, below);
        assert forall|k: int| 0 <= k < missing(f).len() implies #[trigger] b[k] == tree_node::<C>(
            leaf,
            below,
            missing(f)[k],
        ) by {}
        lemma_true_level::<C>(leaf, below, f, level_digests::<C>(s, leaves, bnd, below), b);
    }
    if level < depth {
        lemma_boundary_count_monotone(s, level + 1, depth);
        let b = bnd.skip(boundary_count(s, level) as int);
        let f = frontier(s, level);
        assert forall|k: int| 0 <= k < missing(f).len() implies #[trigger] b[k] == tree_node::<C>(
            leaf,
            level,
            missing(f)[k],
        ) by {}
        lemma_true_level::<C>(leaf, level, f, level_digests::<C>(s, leaves, bnd, level), b);
    }
}

/// Climbing along a leaf's true siblings reaches the tree's own nodes above it.
pub proof fn law_true_siblings_reach_the_root<C: Compressor>(
    leaf: spec_fn(int) -> C::V,
    i: int,
    sibs: Seq<C::V>,
    level: nat,
)
    requires
        forall|l: int|
            0 <= l < level ==> #[trigger] sibs[l] == tree_node::<C>(
                leaf,
                l as nat,
                sib(ancestor(i, l as nat)),
            ),
    ensures
        climbed::<C>(i, leaf(i), sibs, level) == tree_node::<C>(leaf, level, ancestor(i, level)),
    decreases level,
{
    if level > 0 {
        let below = (level - 1) as nat;
        law_true_siblings_reach_the_root::<C>(leaf, i, sibs, below);
        let a = ancestor(i, below);
        let b = below as int;
        assert(sibs[b] == tree_node::<C>(leaf, below, sib(a)));
        if a % 2 == 1 {
            assert(2 * (a / 2) + 1 == a);
        } else {
            assert(2 * (a / 2) == a);
        }
    }
}

/// The path that a pruned opening of a tree gives back for a query holds the
/// query's true siblings, whatever else is queried and however often: the opening
/// carries the tree's nodes that no query covers, and the leaves are the tree's.
pub proof fn law_pruned_paths_are_true<C: Compressor>(
    leaf: spec_fn(int) -> C::V,
    indices: Seq<int>,
    leaves: Seq<C::V>,
    bnd: Seq<C::V>,
    depth: nat,
    q: int,
    level: nat,
)
    requires
        leaves.len() == indices.len(),
        forall|k: int| 0 <= k < indices.len() ==> #[trigger] leaves[k] == leaf(indices[k]),
        true_boundaries::<C>(leaf, sorted_unique(indices), bnd, depth),
        0 <= q < indices.len(),
        level < depth,
    ensures
        path_sibling::<C>(
            sorted_unique(indices),
            unique_leaves::<C>(indices, leaves),
            bnd,
            indices[q],
            level,
        ) == tree_node::<C>(leaf, level, sib(ancestor(indices[q], level))),
{
    let s = sorted_unique(indices);
    let ul = unique_leaves::<C>(indices, leaves);
    lemma_sorted_unique(indices);
    assert forall|k: int| 0 <= k < s.len() implies #[trigger] ul[k] == leaf(s[k]) by {
        assert(s.contains(s[k]));
        lemma_first_position(indices, s[k]);
    }
    lemma_true_walk::<C>(leaf, s, ul, bnd, depth, level);
    assert(indices.contains(indices[q]));
    assert(s.contains(indices[q]));
    let k = choose|k: int| 0 <= k < s.len() && s[k] == indices[q];
    lemma_frontier_covers(s, level, k);
    let f = frontier(s, level);
    let a = f.index_of(ancestor(indices[q], level));
    assert(0 <= a < f.len() && f[a] == ancestor(indices[q], level));
}

/// A node above a leaf of a tree of `depth` levels, `k` levels below the root, is
/// one of the `2^k` there.
pub proof fn lemma_ancestor_bound(i: int, level: nat, k: nat)
    requires
        0 <= i < pow2(level + k),
    ensures
        0 <= ancestor(i, level) < pow2(k),
    decreases level,
{
    if level > 0 {
        lemma_ancestor_bound(i, (level - 1) as nat, k + 1);
        vstd::arithmetic::power2::lemma_pow2_unfold(k + 1);
    }
}

proof fn lemma_inserted(s: Seq<int>, x: int)
    requires
        increasing(s),
    ensures
        increasing(inserted(s, x)),
        forall|y: int| #[trigger] inserted(s, x).contains(y) <==> (s.contains(y) || y == x),
    decreases s.len(),
{
    let t = inserted(s, x);
    if s.len() == 0 || s.last() < x {
        assert forall|i: int, j: int| 0 <= i < j < t.len() implies (#[trigger] t[i]) < (
        #[trigger] t[j]) by {
            if j == s.len() {
                assert(t[i] == s[i]);
                assert(i == s.len() - 1 || s[i] < s[s.len() - 1]);
            }
        }
        assert(t[s.len() as int] == x);
        assert forall|y: int| #[trigger] t.contains(y) <==> (s.contains(y) || y == x) by {
            if s.contains(y) {
                let k = choose|k: int| 0 <= k < s.len() && s[k] == y;
                assert(t[k] == y);
            }
        }
    } else if s.last() == x {
    } else {
        let u = s.drop_last();
        lemma_inserted(u, x);
        let v = inserted(u, x);
        assert forall|i: int, j: int| 0 <= i < j < t.len() implies (#[trigger] t[i]) < (
        #[trigger] t[j]) by {
            if j == v.len() {
                assert(v.contains(v[i]));
                if u.contains(v[i]) {
                    let k = choose|k: int| 0 <= k < u.len() && u[k] == v[i];
                    assert(s[k] < s[s.len() - 1]);
                }
            } else {
                assert(v[i] < v[j]);
            }
        }
        assert forall|y: int| #[trigger] t.contains(y) <==> (s.contains(y) || y == x) by {
            if t.contains(y) {
                let k = choose|k: int| 0 <= k < t.len() && t[k] == y;
                if k < v.len() {
                    assert(v.contains(y));
                    if u.contains(y) {
                        let j = choose|j: int| 0 <= j < u.len() && u[j] == y;
                        assert(s[j] == y);
                    }
                } else {
                    assert(s[s.len() - 1] == y);
                }
            }
            if s.contains(y) {
                let k = choose|k: int| 0 <= k < s.len() && s[k] == y;
                if k < u.len() {
                    assert(u[k] == y);
                    assert(v.contains(y));
                } else {
                    assert(t[v.len() as int] == y);
                }
            }
            if y == x {
                assert(v.contains(x));
            }
            if v.contains(y) {
                let k = choose|k: int| 0 <= k < v.len() && v[k] == y;
                assert(t[k] == y);
            }
        }
    }
}

/// `sorted_unique` is increasing and holds the same values.
pub proof fn lemma_sorted_unique(s: Seq<int>)
    ensures
        increasing(sorted_unique(s)),
        forall|y: int| #[trigger] sorted_unique(s).contains(y) <==> s.contains(y),
    decreases s.len(),
{
    if s.len() > 0 {
        let u = s.drop_last();
        lemma_sorted_unique(u);
        lemma_inserted(sorted_unique(u), s.last());
        assert forall|y: int| #[trigger] sorted_unique(s).contains(y) <==> s.contains(y) by {
            if s.contains(y) {
                let k = choose|k: int| 0 <= k < s.len() && s[k] == y;
                if k < u.len() {
                    assert(u[k] == y);
                }
            }
            if u.contains(y) {
                let k = choose|k: int| 0 <= k < u.len() && u[k] == y;
                assert(s[k] == y);
            }
            assert(s[s.len() - 1] == s.last());
        }
    }
}

/// `first_position` is the first place that holds `x`.
pub proof fn lemma_first_position(s: Seq<int>, x: int)
    requires
        s.contains(x),
    ensures
        0 <= first_position(s, x) < s.len(),
        s[first_position(s, x)] == x,
        forall|k: int| 0 <= k < first_position(s, x) ==> s[k] != x,
    decreases s.len(),
{
    if s[0] != x {
        let k = choose|k: int| 0 <= k < s.len() && s[k] == x;
        assert(s.skip(1)[k - 1] == x);
        lemma_first_position(s.skip(1), x);
        let p = first_position(s.skip(1), x);
        assert(s[p + 1] == s.skip(1)[p]);
        assert forall|j: int| 0 <= j < p + 1 implies s[j] != x by {
            if j > 0 {
                assert(s[j] == s.skip(1)[j - 1]);
            }
        }
    }
}

proof fn lemma_first_position_is(s: Seq<int>, x: int, p: int)
    requires
        0 <= p < s.len(),
        s[p] == x,
        forall|k: int| 0 <= k < p ==> s[k] != x,
    ensures
        first_position(s, x) == p,
{
    lemma_first_position(s, x);
    let f = first_position(s, x);
    if f < p {
        assert(s[f] != x);
    }
}

// ---------------------------------------------------------------------------
// The executable walk.
// ---------------------------------------------------------------------------

/// Whether `i` names a leaf of a tree of this depth.
fn in_range(i: usize, log_leaves: usize) -> (r: bool)
    ensures
        r == (i < pow2(log_leaves as nat)),
{
    let mut v: usize = i;
    let mut l: usize = log_leaves;
    proof {
        vstd::arithmetic::power2::lemma2_to64();
    }
    while l > 0 && v > 0
        invariant
            (v < pow2(l as nat)) == (i < pow2(log_leaves as nat)),
        decreases l,
    {
        proof {
            vstd::arithmetic::power2::lemma_pow2_unfold(l as nat);
            vstd::arithmetic::power2::lemma_pow2_pos((l - 1) as nat);
        }
        v = v / 2;
        l = l - 1;
    }
    proof {
        vstd::arithmetic::power2::lemma2_to64();
        vstd::arithmetic::power2::lemma_pow2_pos(l as nat);
    }
    v == 0
}

/// The distinct indices, increasing: the order the frontier and the wire use.
fn sort_unique(indices: &[usize]) -> (r: Vec<usize>)
    ensures
        ints(r@) == sorted_unique(ints(indices@)),
{
    let mut r: Vec<usize> = Vec::new();
    let mut k: usize = 0;
    let ghost all = ints(indices@);
    assert(all.take(0) =~= Seq::<int>::empty());
    assert(ints(r@) =~= Seq::<int>::empty());
    while k < indices.len()
        invariant
            k <= indices@.len(),
            all == ints(indices@),
            ints(r@) == sorted_unique(all.take(k as int)),
        decreases indices@.len() - k,
    {
        let x = indices[k];
        let ghost s = ints(r@);
        proof {
            assert(all.take(k + 1).drop_last() =~= all.take(k as int));
            lemma_sorted_unique(all.take(k as int));
        }
        insert_sorted(&mut r, x);
        k = k + 1;
    }
    assert(all.take(k as int) =~= all);
    r
}

fn insert_sorted(r: &mut Vec<usize>, x: usize)
    requires
        increasing(ints(old(r)@)),
    ensures
        ints(final(r)@) == inserted(ints(old(r)@), x as int),
{
    let ghost s = ints(r@);
    let n = r.len();
    let mut p: usize = n;
    assert(s.take(n as int) =~= s);
    assert(s.skip(n as int) =~= Seq::<int>::empty());
    assert(inserted(s, x as int) =~= inserted(s.take(n as int), x as int) + s.skip(n as int));
    while p > 0 && r[p - 1] > x
        invariant
            p <= n,
            n == r@.len(),
            s == ints(r@),
            inserted(s, x as int) == inserted(s.take(p as int), x as int) + s.skip(p as int),
        decreases p,
    {
        proof {
            let t = s.take(p as int);
            assert(t.last() == s[p - 1]);
            assert(t.drop_last() =~= s.take(p - 1));
            assert(inserted(t, x as int) == inserted(t.drop_last(), x as int).push(t.last()));
            assert(inserted(t.drop_last(), x as int).push(t.last()) + s.skip(p as int)
                =~= inserted(s.take(p - 1), x as int) + s.skip(p - 1));
        }
        p = p - 1;
    }
    let ghost t = s.take(p as int);
    if p > 0 && r[p - 1] == x {
        proof {
            assert(t.last() == x);
            assert(t + s.skip(p as int) =~= s);
        }
    } else {
        proof {
            if p > 0 {
                assert(t.last() == s[p - 1]);
            }
            assert(inserted(t, x as int) == t.push(x as int));
        }
        r.insert(p, x);
        assert(ints(r@) =~= t.push(x as int) + s.skip(p as int));
    }
}

/// One level of the walk over indices: the parents, and the boundary children
/// in wire order.
fn walk_frontier(nodes: &Vec<usize>) -> (r: (Vec<usize>, Vec<usize>))
    requires
        increasing(ints(nodes@)),
    ensures
        ints(r.0@) == parents(ints(nodes@)),
        ints(r.1@) == missing(ints(nodes@)),
{
    let mut up: Vec<usize> = Vec::new();
    let mut gone: Vec<usize> = Vec::new();
    let ghost s = ints(nodes@);
    let mut i: usize = 0;
    proof {
        assert(s.skip(0) =~= s);
        assert(ints(up@) + parents(s.skip(0)) =~= parents(s));
        assert(ints(gone@) + missing(s.skip(0)) =~= missing(s));
    }
    while i < nodes.len()
        invariant
            i <= nodes@.len(),
            s == ints(nodes@),
            increasing(s),
            parents(s) == ints(up@) + parents(s.skip(i as int)),
            missing(s) == ints(gone@) + missing(s.skip(i as int)),
        decreases nodes@.len() - i,
    {
        let c = nodes[i];
        let pair = c % 2 == 0 && i + 1 < nodes.len() && nodes[i + 1] - 1 == c;
        let ghost t = s.skip(i as int);
        let ghost up0 = ints(up@);
        let ghost gone0 = ints(gone@);
        proof {
            assert(t[0] == c);
            if i + 1 < nodes@.len() {
                assert(t[1] == nodes@[i + 1]);
                assert(s[i as int] < s[i + 1]);
            }
            assert(pair == paired(t));
            assert(t.skip(1) =~= s.skip(i + 1));
            if pair {
                assert(t.skip(2) =~= s.skip(i + 2));
            }
        }
        up.push(c / 2);
        assert(ints(up@) =~= up0.push(t[0] / 2));
        assert(up0 + parents(t) =~= up0.push(t[0] / 2) + parents(rest(t)));
        if pair {
            i = i + 2;
        } else {
            proof {
                vstd::layout::unsigned_int_max_values();
                assert(usize::MAX % 2 == 1);
            }
            let other = if c % 2 == 0 {
                c + 1
            } else {
                c - 1
            };
            gone.push(other);
            assert(ints(gone@) =~= gone0.push(sib(t[0])));
            assert(gone0 + missing(t) =~= gone0.push(sib(t[0])) + missing(rest(t)));
            i = i + 1;
        }
    }
    proof {
        assert(s.skip(i as int) =~= Seq::<int>::empty());
        assert(ints(up@) + parents(s.skip(i as int)) =~= ints(up@));
        assert(ints(gone@) + missing(s.skip(i as int)) =~= ints(gone@));
    }
    (up, gone)
}

/// The number of boundary digests of a tree of `depth` levels over the
/// distinct indices `leaves`.
fn count_boundaries(leaves: &Vec<usize>, depth: usize) -> (r: Option<usize>)
    requires
        increasing(ints(leaves@)),
    ensures
        r matches Some(n) ==> n == boundary_count(ints(leaves@), depth as nat),
        r is None <==> boundary_count(ints(leaves@), depth as nat) > usize::MAX,
{
    let ghost s = ints(leaves@);
    let mut nodes: Vec<usize> = Vec::new();
    let mut k: usize = 0;
    while k < leaves.len()
        invariant
            k <= leaves@.len(),
            nodes@ == leaves@.take(k as int),
        decreases leaves@.len() - k,
    {
        nodes.push(leaves[k]);
        assert(leaves@.take(k + 1) =~= leaves@.take(k as int).push(leaves@[k as int]));
        k = k + 1;
    }
    assert(leaves@.take(k as int) =~= leaves@);
    let mut total: usize = 0;
    let mut level: usize = 0;
    while level < depth
        invariant
            level <= depth,
            s == ints(leaves@),
            increasing(s),
            ints(nodes@) == frontier(s, level as nat),
            total == boundary_count(s, level as nat),
        decreases depth - level,
    {
        proof {
            lemma_frontier_increasing(s, level as nat);
        }
        let (up, gone) = walk_frontier(&nodes);
        match total.checked_add(gone.len()) {
            Some(t) => {
                total = t;
            },
            None => {
                proof {
                    assert(boundary_count(s, (level + 1) as nat) == total + missing(
                        frontier(s, level as nat),
                    ).len());
                    assert(ints(gone@).len() == gone@.len());
                    lemma_boundary_count_monotone(s, (level + 1) as nat, depth as nat);
                }
                return None;
            },
        }
        nodes = up;
        level = level + 1;
    }
    Some(total)
}

proof fn lemma_boundary_count_monotone(s: Seq<int>, a: nat, b: nat)
    requires
        a <= b,
    ensures
        boundary_count(s, a) <= boundary_count(s, b),
    decreases b,
{
    if a < b {
        lemma_boundary_count_monotone(s, a, (b - 1) as nat);
    }
}

/// One level of the walk over digests.
struct Climb<D> {
    up: Vec<usize>,
    digests: Vec<D>,
    /// The sibling of each node.
    siblings: Vec<D>,
    /// The place of each node's parent.
    place: Vec<usize>,
    /// The boundary digests taken so far.
    cursor: usize,
}

/// Climb one level, the boundary digests being taken from `bnd` at `cursor`.
fn climb<C: Compressor>(
    nodes: &Vec<usize>,
    digests: &Vec<C::D>,
    bnd: &[C::D],
    cursor: usize,
) -> (r: Climb<C::D>)
    requires
        increasing(ints(nodes@)),
        digests@.len() == nodes@.len(),
        cursor + missing(ints(nodes@)).len() <= bnd@.len(),
    ensures
        ({
            let s = ints(nodes@);
            let d = models::<C>(digests@);
            let b = models::<C>(bnd@).skip(cursor as int);
            &&& ints(r.up@) == parents(s)
            &&& models::<C>(r.digests@) == parent_digests::<C>(s, d, b)
            &&& models::<C>(r.siblings@) == siblings::<C>(s, d, b)
            &&& r.cursor == cursor + missing(s).len()
            &&& r.place@.len() == s.len()
            &&& forall|k: int|
                0 <= k < s.len() ==> (#[trigger] r.place@[k]) < r.up@.len() && r.up@[r.place@[k]
                    as int] == s[k] / 2
        }),
{
    let ghost s = ints(nodes@);
    let ghost d = models::<C>(digests@);
    let ghost all = models::<C>(bnd@);
    let mut up: Vec<usize> = Vec::new();
    let mut updig: Vec<C::D> = Vec::new();
    let mut sibs: Vec<C::D> = Vec::new();
    let mut place: Vec<usize> = Vec::new();
    let mut i: usize = 0;
    let mut m: usize = cursor;
    proof {
        let b = all.skip(cursor as int);
        assert(s.skip(0) =~= s);
        assert(d.skip(0) =~= d);
        assert(ints(up@) + parents(s) =~= parents(s));
        assert(models::<C>(updig@) + parent_digests::<C>(s, d, b) =~= parent_digests::<C>(s, d, b));
        assert(models::<C>(sibs@) + siblings::<C>(s, d, b) =~= siblings::<C>(s, d, b));
    }
    while i < nodes.len()
        invariant
            i <= nodes@.len(),
            s == ints(nodes@),
            increasing(s),
            d == models::<C>(digests@),
            digests@.len() == nodes@.len(),
            all == models::<C>(bnd@),
            cursor <= m,
            m + missing(s.skip(i as int)).len() == cursor + missing(s).len(),
            cursor + missing(s).len() <= bnd@.len(),
            parents(s) == ints(up@) + parents(s.skip(i as int)),
            parent_digests::<C>(s, d, all.skip(cursor as int)) == models::<C>(updig@)
                + parent_digests::<C>(s.skip(i as int), d.skip(i as int), all.skip(m as int)),
            siblings::<C>(s, d, all.skip(cursor as int)) == models::<C>(sibs@) + siblings::<C>(
                s.skip(i as int),
                d.skip(i as int),
                all.skip(m as int),
            ),
            place@.len() == i,
            forall|k: int|
                0 <= k < i ==> (#[trigger] place@[k]) < up@.len() && up@[place@[k] as int] == s[k]
                    / 2,
        decreases nodes@.len() - i,
    {
        let c = nodes[i];
        let pair = c % 2 == 0 && i + 1 < nodes.len() && nodes[i + 1] - 1 == c;
        let ghost t = s.skip(i as int);
        let ghost e = d.skip(i as int);
        let ghost b = all.skip(m as int);
        let ghost up0 = ints(up@);
        let ghost updig0 = models::<C>(updig@);
        let ghost sibs0 = models::<C>(sibs@);
        proof {
            assert(t[0] == c);
            assert(e[0] == C::model(digests@[i as int]));
            if i + 1 < nodes@.len() {
                assert(t[1] == nodes@[i + 1]);
                assert(e[1] == C::model(digests@[i + 1]));
                assert(s[i as int] < s[i + 1]);
            }
            assert(pair == paired(t));
            assert(t.skip(1) =~= s.skip(i + 1));
            assert(e.skip(1) =~= d.skip(i + 1));
            if pair {
                assert(t.skip(2) =~= s.skip(i + 2));
                assert(e.skip(2) =~= d.skip(i + 2));
            }
        }
        let at = up.len();
        up.push(c / 2);
        place.push(at);
        proof {
            assert(ints(up@) =~= up0.push(t[0] / 2));
            assert(up0 + parents(t) =~= up0.push(t[0] / 2) + parents(rest(t)));
        }
        if pair {
            place.push(at);
            let left = digests[i];
            let right = digests[i + 1];
            let p = C::compress(&left, &right);
            updig.push(p);
            sibs.push(right);
            sibs.push(left);
            proof {
                assert(models::<C>(updig@) =~= updig0.push(C::model(p)));
                assert(models::<C>(sibs@) =~= sibs0.push(e[1]).push(e[0]));
                assert(updig0 + parent_digests::<C>(t, e, b) =~= updig0.push(C::model(p))
                    + parent_digests::<C>(t.skip(2), e.skip(2), b));
                assert(sibs0 + siblings::<C>(t, e, b) =~= sibs0.push(e[1]).push(e[0])
                    + siblings::<C>(t.skip(2), e.skip(2), b));
            }
            i = i + 2;
        } else {
            let own = digests[i];
            let other = bnd[m];
            proof {
                assert(b[0] == C::model(other));
                assert(b.skip(1) =~= all.skip(m + 1));
            }
            let p = if c % 2 == 0 {
                C::compress(&own, &other)
            } else {
                C::compress(&other, &own)
            };
            updig.push(p);
            sibs.push(other);
            proof {
                assert(models::<C>(updig@) =~= updig0.push(C::model(p)));
                assert(models::<C>(sibs@) =~= sibs0.push(b[0]));
                assert(updig0 + parent_digests::<C>(t, e, b) =~= updig0.push(C::model(p))
                    + parent_digests::<C>(t.skip(1), e.skip(1), b.skip(1)));
                assert(sibs0 + siblings::<C>(t, e, b) =~= sibs0.push(b[0]) + siblings::<C>(
                    t.skip(1),
                    e.skip(1),
                    b.skip(1),
                ));
            }
            m = m + 1;
            i = i + 1;
        }
    }
    proof {
        assert(s.skip(i as int) =~= Seq::<int>::empty());
        assert(ints(up@) + parents(s.skip(i as int)) =~= ints(up@));
        let e = d.skip(i as int);
        let b = all.skip(m as int);
        assert(models::<C>(updig@) + parent_digests::<C>(s.skip(i as int), e, b)
            =~= models::<C>(updig@));
        assert(models::<C>(sibs@) + siblings::<C>(s.skip(i as int), e, b) =~= models::<C>(sibs@));
    }
    Climb { up, digests: updig, siblings: sibs, place, cursor: m }
}

/// The place of the first query of `x`.
fn position(indices: &[usize], x: usize) -> (p: usize)
    requires
        ints(indices@).contains(x as int),
    ensures
        p == first_position(ints(indices@), x as int),
        p < indices@.len(),
{
    let ghost s = ints(indices@);
    proof {
        let k = choose|k: int| 0 <= k < s.len() && s[k] == x;
        assert(indices@[k] == x);
    }
    let mut p: usize = 0;
    while indices[p] != x
        invariant
            p < indices@.len(),
            s == ints(indices@),
            s.contains(x as int),
            forall|k: int| 0 <= k < p ==> s[k] != x,
        decreases indices@.len() - p,
    {
        proof {
            let k = choose|k: int| 0 <= k < s.len() && s[k] == x;
            assert(s[p as int] != x);
            assert(k > p);
        }
        p = p + 1;
    }
    proof {
        assert(s[p as int] == x);
        lemma_first_position_is(s, x as int, p as int);
    }
    p
}

/// The place of `x` in an increasing list.
fn place_of(sorted: &Vec<usize>, x: usize) -> (p: usize)
    requires
        ints(sorted@).contains(x as int),
    ensures
        p < sorted@.len(),
        sorted@[p as int] == x,
{
    let n = sorted.len();
    let mut p: usize = 0;
    let ghost s = ints(sorted@);
    proof {
        let k = choose|k: int| 0 <= k < s.len() && s[k] == x;
        assert(sorted@[k] == x);
    }
    while sorted[p] != x
        invariant
            p < sorted@.len() == n,
            s == ints(sorted@),
            s.contains(x as int),
            forall|k: int| 0 <= k < p ==> s[k] != x,
        decreases sorted@.len() - p,
    {
        proof {
            let k = choose|k: int| 0 <= k < s.len() && s[k] == x;
            assert(s[p as int] != x);
            assert(k > p);
        }
        p = p + 1;
    }
    p
}

/// The full sibling path of every distinct index.
fn unique_paths<C: Compressor>(
    sorted: &Vec<usize>,
    leaves: Vec<C::D>,
    boundaries: &[C::D],
    depth: usize,
) -> (r: Vec<Vec<C::D>>)
    requires
        increasing(ints(sorted@)),
        leaves@.len() == sorted@.len(),
        boundaries@.len() == boundary_count(ints(sorted@), depth as nat),
    ensures
        r@.len() == sorted@.len(),
        forall|k: int| 0 <= k < r@.len() ==> (#[trigger] r@[k])@.len() == depth,
        forall|k: int, l: int|
            0 <= k < r@.len() && 0 <= l < depth ==> C::model(#[trigger] r@[k]@[l])
                == path_sibling::<C>(
                ints(sorted@),
                models::<C>(leaves@),
                models::<C>(boundaries@),
                sorted@[k] as int,
                l as nat,
            ),
{
    let n = sorted.len();
    let ghost s = ints(sorted@);
    let ghost ul = models::<C>(leaves@);
    let ghost bnd = models::<C>(boundaries@);
    let mut nodes: Vec<usize> = Vec::new();
    let mut place: Vec<usize> = Vec::new();
    let mut paths: Vec<Vec<C::D>> = Vec::new();
    while nodes.len() < n
        invariant
            n == sorted@.len(),
            nodes@.len() <= n,
            nodes@ == sorted@.take(nodes@.len() as int),
            place@.len() == nodes@.len(),
            paths@.len() == nodes@.len(),
            forall|k: int| 0 <= k < place@.len() ==> #[trigger] place@[k] == k,
            forall|k: int| 0 <= k < paths@.len() ==> (#[trigger] paths@[k])@.len() == 0,
        decreases n - nodes@.len(),
    {
        let k = nodes.len();
        nodes.push(sorted[k]);
        place.push(k);
        paths.push(Vec::new());
        assert(sorted@.take(k + 1) =~= sorted@.take(k as int).push(sorted@[k as int]));
    }
    assert(nodes@ =~= sorted@);
    assert(ints(nodes@) =~= s);
    let mut digests: Vec<C::D> = leaves;
    let mut cursor: usize = 0;
    let mut level: usize = 0;
    while level < depth
        invariant
            level <= depth,
            n == sorted@.len(),
            s == ints(sorted@),
            increasing(s),
            ul.len() == s.len(),
            bnd == models::<C>(boundaries@),
            boundaries@.len() == boundary_count(s, depth as nat),
            cursor == boundary_count(s, level as nat),
            ints(nodes@) == frontier(s, level as nat),
            models::<C>(digests@) == level_digests::<C>(s, ul, bnd, level as nat),
            place@.len() == n,
            paths@.len() == n,
            forall|k: int|
                0 <= k < n ==> (#[trigger] place@[k]) < nodes@.len() && nodes@[place@[k] as int]
                    == ancestor(s[k], level as nat),
            forall|k: int| 0 <= k < n ==> (#[trigger] paths@[k])@.len() == level,
            forall|k: int, l: int|
                0 <= k < n && 0 <= l < level ==> C::model(#[trigger] paths@[k]@[l])
                    == path_sibling::<C>(s, ul, bnd, s[k], l as nat),
        decreases depth - level,
    {
        proof {
            lemma_frontier_increasing(s, level as nat);
            lemma_boundary_count_monotone(s, (level + 1) as nat, depth as nat);
            lemma_level_lens::<C>(s, ul, bnd, level as nat);
        }
        let c = climb::<C>(&nodes, &digests, boundaries, cursor);
        let mut k: usize = 0;
        let ghost f = frontier(s, level as nat);
        let ghost lsibs = level_siblings::<C>(s, ul, bnd, level as nat);
        let ghost place0 = place@;
        while k < n
            invariant
                k <= n,
                n == s.len(),
                level < depth,
                f == frontier(s, level as nat),
                increasing(f),
                f == ints(nodes@),
                lsibs == level_siblings::<C>(s, ul, bnd, level as nat),
                models::<C>(c.siblings@) == lsibs,
                lsibs.len() == f.len(),
                c.place@.len() == f.len(),
                forall|j: int|
                    0 <= j < f.len() ==> (#[trigger] c.place@[j]) < c.up@.len()
                        && c.up@[c.place@[j] as int] == f[j] / 2,
                place@.len() == n,
                paths@.len() == n,
                place0.len() == n,
                forall|j: int| k <= j < n ==> #[trigger] place@[j] == place0[j],
                forall|j: int|
                    0 <= j < n ==> (#[trigger] place0[j]) < nodes@.len() && nodes@[place0[j] as int]
                        == ancestor(s[j], level as nat),
                forall|j: int|
                    0 <= j < k ==> (#[trigger] place@[j]) < c.up@.len() && c.up@[place@[j] as int]
                        == ancestor(s[j], (level + 1) as nat),
                forall|j: int| 0 <= j < k ==> (#[trigger] paths@[j])@.len() == level + 1,
                forall|j: int| k <= j < n ==> (#[trigger] paths@[j])@.len() == level,
                forall|j: int, l: int|
                    0 <= j < n && 0 <= l < paths@[j]@.len() ==> C::model(#[trigger] paths@[j]@[l])
                        == path_sibling::<C>(s, ul, bnd, s[j], l as nat),
            decreases n - k,
        {
            let at = place[k];
            proof {
                assert(place@[k as int] == place0[k as int]);
                assert(f[at as int] == ancestor(s[k as int], level as nat));
                lemma_index_of(f, at as int);
                assert(C::model(c.siblings@[at as int]) == lsibs[at as int]);
                assert(c.siblings@.len() == lsibs.len());
                assert(c.place@[at as int] < c.up@.len());
            }
            let ghost paths0 = paths@;
            let sibling = c.siblings[at];
            let mut path = Vec::new();
            core::mem::swap(&mut path, &mut paths[k]);
            path.push(sibling);
            paths.set(k, path);
            place.set(k, c.place[at]);
            proof {
                assert forall|j: int, l: int|
                    0 <= j < n && 0 <= l < paths@[j]@.len() implies C::model(
                    #[trigger] paths@[j]@[l],
                ) == path_sibling::<C>(s, ul, bnd, s[j], l as nat) by {
                    if j == k {
                        if l < level {
                            assert(paths@[j]@[l] == paths0[j]@[l]);
                        }
                    } else {
                        assert(paths@[j] == paths0[j]);
                    }
                }
            }
            k = k + 1;
        }
        cursor = c.cursor;
        nodes = c.up;
        digests = c.digests;
        level = level + 1;
    }
    paths
}

/// The conditions under which every query has its leaf and its place.
pub open spec fn well_indexed(indices: Seq<int>, leaves: nat, log_leaves: nat) -> bool {
    &&& indices.len() == leaves
    &&& forall|q: int| 0 <= q < indices.len() ==> (#[trigger] indices[q]) < pow2(log_leaves)
}

/// Expands a pruned multi-opening into one complete path per query.
///
/// `indices` and `leaves` are in query order; duplicates are allowed and share
/// a path. `boundaries` are the proof's digests in wire order, `log_leaves` is
/// `log2` of the number of leaves and `cap_height` that of the Merkle cap the
/// tree is committed as (`0` for a single root), which ends every path that
/// many levels early.
pub fn expand<C: Compressor>(
    boundaries: &[C::D],
    indices: &[usize],
    leaves: &[C::D],
    log_leaves: usize,
    cap_height: usize,
) -> (r: Result<Vec<Path<C::D>>, Error>)
    requires
        well_indexed(ints(indices@), leaves@.len(), log_leaves as nat) ==> cap_height
            <= log_leaves,
    ensures
        ({
            let idx = ints(indices@);
            let depth = (log_leaves - cap_height) as nat;
            let count = boundary_count(sorted_unique(idx), depth);
            if indices@.len() != leaves@.len() {
                r == Err::<Vec<Path<C::D>>, Error>(
                    Error::MissingLeaf {
                        index: if indices@.len() < leaves@.len() {
                            indices@.len() as usize
                        } else {
                            leaves@.len() as usize
                        },
                    },
                )
            } else if !well_indexed(idx, leaves@.len(), log_leaves as nat) {
                r == Err::<Vec<Path<C::D>>, Error>(
                    Error::IndexOutOfRange {
                        index: indices@[first_out_of_range(idx, log_leaves as nat)],
                        depth: log_leaves,
                    },
                )
            } else if boundaries@.len() != count {
                r == Err::<Vec<Path<C::D>>, Error>(
                    Error::SiblingCount {
                        expected: if count <= usize::MAX {
                            count as usize
                        } else {
                            usize::MAX
                        },
                        got: boundaries@.len() as usize,
                    },
                )
            } else {
                r is Ok && expansion::<C>(
                    models::<C>(boundaries@),
                    idx,
                    models::<C>(leaves@),
                    depth,
                    r->Ok_0@,
                )
            }
        }),
{
    let n = indices.len();
    let got = boundaries.len();
    let ghost idx = ints(indices@);
    if n != leaves.len() {
        return Err(
            Error::MissingLeaf {
                index: if n < leaves.len() {
                    n
                } else {
                    leaves.len()
                },
            },
        );
    }
    let mut q: usize = 0;
    assert(idx.skip(0) =~= idx);
    while q < n
        invariant
            q <= n,
            n == indices@.len() == leaves@.len(),
            idx == ints(indices@),
            forall|k: int| 0 <= k < q ==> (#[trigger] idx[k]) < pow2(log_leaves as nat),
            first_out_of_range(idx, log_leaves as nat) == q + first_out_of_range(
                idx.skip(q as int),
                log_leaves as nat,
            ),
        ensures
            forall|k: int| 0 <= k < n ==> (#[trigger] idx[k]) < pow2(log_leaves as nat),
        decreases n - q,
    {
        proof {
            assert(idx.skip(q as int)[0] == idx[q as int]);
            assert(idx.skip(q as int).skip(1) =~= idx.skip(q + 1));
        }
        if !in_range(indices[q], log_leaves) {
            proof {
                assert(idx[q as int] >= pow2(log_leaves as nat));
                assert(!well_indexed(idx, leaves@.len(), log_leaves as nat));
            }
            return Err(Error::IndexOutOfRange { index: indices[q], depth: log_leaves });
        }
        q = q + 1;
    }
    assert(well_indexed(idx, leaves@.len(), log_leaves as nat));
    let depth = log_leaves - cap_height;
    let sorted = sort_unique(indices);
    let ghost s = ints(sorted@);
    proof {
        lemma_sorted_unique(idx);
    }
    match count_boundaries(&sorted, depth) {
        Some(expected) => {
            if expected != got {
                return Err(Error::SiblingCount { expected, got });
            }
        },
        None => {
            return Err(Error::SiblingCount { expected: usize::MAX, got });
        },
    }
    let mut unique: Vec<C::D> = Vec::new();
    while unique.len() < sorted.len()
        invariant
            n == indices@.len() == leaves@.len(),
            idx == ints(indices@),
            s == ints(sorted@),
            s == sorted_unique(idx),
            forall|y: int| #[trigger] s.contains(y) <==> idx.contains(y),
            unique@.len() <= sorted@.len(),
            forall|k: int|
                0 <= k < unique@.len() ==> C::model(#[trigger] unique@[k]) == leaf_of::<C>(
                    idx,
                    models::<C>(leaves@),
                    s[k],
                ),
        decreases sorted@.len() - unique@.len(),
    {
        let k = unique.len();
        assert(s.contains(s[k as int]));
        let p = position(indices, sorted[k]);
        unique.push(leaves[p]);
    }
    let ghost ul = unique_leaves::<C>(idx, models::<C>(leaves@));
    assert(models::<C>(unique@) =~= ul);
    let paths = unique_paths::<C>(&sorted, unique, boundaries, depth);
    let mut out: Vec<Path<C::D>> = Vec::new();
    let ghost bnd = models::<C>(boundaries@);
    while out.len() < n
        invariant
            n == indices@.len() == leaves@.len(),
            idx == ints(indices@),
            s == ints(sorted@),
            s == sorted_unique(idx),
            ul == unique_leaves::<C>(idx, models::<C>(leaves@)),
            forall|y: int| #[trigger] s.contains(y) <==> idx.contains(y),
            paths@.len() == sorted@.len(),
            forall|k: int| 0 <= k < paths@.len() ==> (#[trigger] paths@[k])@.len() == depth,
            forall|k: int, l: int|
                0 <= k < paths@.len() && 0 <= l < depth ==> C::model(#[trigger] paths@[k]@[l])
                    == path_sibling::<C>(s, ul, bnd, sorted@[k] as int, l as nat),
            out@.len() <= n,
            forall|q: int|
                0 <= q < out@.len() ==> {
                    let p = #[trigger] out@[q];
                    &&& p.index == idx[q]
                    &&& C::model(p.leaf) == leaf_of::<C>(idx, models::<C>(leaves@), idx[q])
                    &&& p.siblings@.len() == depth
                    &&& forall|l: int|
                        0 <= l < depth ==> C::model(#[trigger] p.siblings@[l])
                            == path_sibling::<C>(s, ul, bnd, idx[q], l as nat)
                },
        decreases n - out@.len(),
    {
        let q = out.len();
        let x = indices[q];
        proof {
            assert(idx[q as int] == x);
            assert(idx.contains(x as int));
            assert(s.contains(x as int));
        }
        let slot = place_of(&sorted, x);
        let p = position(indices, x);
        let mut siblings: Vec<C::D> = Vec::new();
        while siblings.len() < depth
            invariant
                slot < paths@.len(),
                paths@[slot as int]@.len() == depth,
                siblings@.len() <= depth,
                siblings@ == paths@[slot as int]@.take(siblings@.len() as int),
            decreases depth - siblings@.len(),
        {
            let l = siblings.len();
            siblings.push(paths[slot][l]);
            assert(paths@[slot as int]@.take(l + 1) =~= paths@[slot as int]@.take(l as int).push(
                paths@[slot as int]@[l as int],
            ));
        }
        proof {
            assert(siblings@ =~= paths@[slot as int]@);
            assert(C::model(leaves@[p as int]) == models::<C>(leaves@)[p as int]);
        }
        out.push(Path { index: x, leaf: leaves[p], siblings });
    }
    Ok(out)
}

} // verus!

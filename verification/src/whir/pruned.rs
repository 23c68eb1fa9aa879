//! The Poseidon2 trees of the prime-field verifier, and the expansion of their
//! pruned openings into one full path per query.
use crate::merkle;
use crate::merkle::Compressor;
use crate::poseidon2::reference;
use vstd::prelude::*;

pub use crate::merkle::{Error, Path};

verus! {

/// A digest: eight field elements.
pub type Digest = [u32; 8];

/// The trees whose nodes are compressed with Poseidon2.
pub struct Poseidon2Tree;

impl Compressor for Poseidon2Tree {
    type D = Digest;

    type V = Seq<int>;

    open spec fn model(d: Digest) -> Seq<int> {
        reference::ints(d@)
    }

    open spec fn node(left: Seq<int>, right: Seq<int>) -> Seq<int> {
        reference::node(left, right)
    }

    fn compress(left: &Digest, right: &Digest) -> Digest {
        reference::compress(left, right)
    }
}

/// A pruned opening with the digests its queries call for.
pub open spec fn complete(boundaries: nat, idx: Seq<int>, leaves: nat, depth: nat) -> bool {
    &&& merkle::well_indexed(idx, leaves, depth)
    &&& boundaries == merkle::boundary_count(merkle::sorted_unique(idx), depth)
}

/// The siblings on the path of query `q`, level 0 first.
pub open spec fn path(
    boundaries: Seq<Seq<int>>,
    idx: Seq<int>,
    leaves: Seq<Seq<int>>,
    depth: nat,
    q: int,
) -> Seq<Seq<int>> {
    let s = merkle::sorted_unique(idx);
    let ul = merkle::unique_leaves::<Poseidon2Tree>(idx, leaves);
    Seq::new(
        depth,
        |l: int| merkle::path_sibling::<Poseidon2Tree>(s, ul, boundaries, idx[q], l as nat),
    )
}

/// Expands a pruned multi-opening of a tree of `depth` levels into one complete
/// path per query.
///
/// `indices` and `leaves` are in query order; duplicates are allowed and share a
/// path. `boundaries` is the proof's boundary digests.
pub fn expand(
    boundaries: &[Digest],
    indices: &[usize],
    leaves: &[Digest],
    depth: usize,
) -> (r: Result<Vec<Path<Digest>>, Error>)
    ensures
        expanded(boundaries@, indices@, leaves@, depth as nat, r),
        r is Ok <==> complete(
            boundaries@.len(),
            merkle::ints(indices@),
            leaves@.len(),
            depth as nat,
        ),
        r matches Ok(paths) ==> {
            let idx = merkle::ints(indices@);
            let ls = reference::digests(leaves@);
            &&& paths@.len() == indices@.len()
            &&& forall|q: int|
                0 <= q < paths@.len() ==> {
                    let p = #[trigger] paths@[q];
                    &&& p.index == indices@[q]
                    &&& reference::ints(p.leaf@) == merkle::leaf_of::<Poseidon2Tree>(
                        idx,
                        ls,
                        idx[q],
                    )
                    &&& reference::digests(p.siblings@) == path(
                        reference::digests(boundaries@),
                        idx,
                        ls,
                        depth as nat,
                        q,
                    )
                    &&& p.siblings@.len() == depth
                }
        },
{
    let r = merkle::expand::<Poseidon2Tree>(boundaries, indices, leaves, depth, 0);
    proof {
        let idx = merkle::ints(indices@);
        let ls = reference::digests(leaves@);
        let bs = reference::digests(boundaries@);
        assert(merkle::models::<Poseidon2Tree>(leaves@) =~= ls);
        assert(merkle::models::<Poseidon2Tree>(boundaries@) =~= bs);
        if r is Ok {
            let paths = r->Ok_0;
            assert forall|q: int| 0 <= q < paths@.len() implies ({
                let p = #[trigger] paths@[q];
                &&& p.index == indices@[q]
                &&& reference::ints(p.leaf@) == merkle::leaf_of::<Poseidon2Tree>(idx, ls, idx[q])
                &&& reference::digests(p.siblings@) == path(bs, idx, ls, depth as nat, q)
                &&& p.siblings@.len() == depth
            }) by {
                let p = paths@[q];
                let want = path(bs, idx, ls, depth as nat, q);
                assert forall|l: int| 0 <= l < depth implies reference::digests(p.siblings@)[l]
                    == want[l] by {
                    assert(Poseidon2Tree::model(p.siblings@[l]) == want[l]);
                }
                assert(reference::digests(p.siblings@) =~= want);
            }
        }
    }
    r
}

/// What [`expand`] returns on every input.
pub open spec fn expanded(
    boundaries: Seq<Digest>,
    indices: Seq<usize>,
    leaves: Seq<Digest>,
    depth: nat,
    r: Result<Vec<Path<Digest>>, Error>,
) -> bool {
    let idx = merkle::ints(indices);
    let count = merkle::boundary_count(merkle::sorted_unique(idx), depth);
    if indices.len() != leaves.len() {
        r == Err::<Vec<Path<Digest>>, Error>(
            Error::MissingLeaf {
                index: if indices.len() < leaves.len() {
                    indices.len() as usize
                } else {
                    leaves.len() as usize
                },
            },
        )
    } else if !merkle::well_indexed(idx, leaves.len(), depth) {
        r == Err::<Vec<Path<Digest>>, Error>(
            Error::IndexOutOfRange {
                index: indices[merkle::first_out_of_range(idx, depth)],
                depth: depth as usize,
            },
        )
    } else if boundaries.len() != count {
        r == Err::<Vec<Path<Digest>>, Error>(
            Error::SiblingCount {
                expected: if count <= usize::MAX {
                    count as usize
                } else {
                    usize::MAX
                },
                got: boundaries.len() as usize,
            },
        )
    } else {
        r is Ok
    }
}

} // verus!

//! The Blake3 trees of the binary-field verifier, and the expansion of their
//! pruned openings into one full path per query.
use super::hash;
use crate::merkle;
use crate::merkle::Compressor;
use vstd::prelude::*;

pub use crate::merkle::{Error, Path};

verus! {

/// Digest type of the trees this expands: a 32-byte hash.
pub type Digest = [u8; 32];

/// The digest of the concatenated children.
pub open spec fn node(left: Seq<u8>, right: Seq<u8>) -> Seq<u8> {
    hash::digest(left + right)
}

/// Blake3 of the two children concatenated.
pub fn compress(left: &Digest, right: &Digest) -> (d: Digest)
    ensures
        d@ == node(left@, right@),
{
    let mut buf: Vec<u8> = Vec::new();
    let mut i: usize = 0;
    while i < 32
        invariant
            i <= 32,
            buf@ == left@.take(i as int),
        decreases 32 - i,
    {
        buf.push(left[i]);
        assert(left@.take(i + 1) =~= left@.take(i as int).push(left@[i as int]));
        i = i + 1;
    }
    assert(left@.take(32) =~= left@);
    let mut k: usize = 0;
    assert(left@ + right@.take(0) =~= left@);
    while k < 32
        invariant
            k <= 32,
            buf@ == left@ + right@.take(k as int),
        decreases 32 - k,
    {
        buf.push(right[k]);
        assert(right@.take(k + 1) =~= right@.take(k as int).push(right@[k as int]));
        assert((left@ + right@.take(k as int)).push(right@[k as int]) =~= left@ + right@.take(
            k + 1,
        ));
        k = k + 1;
    }
    assert(right@.take(32) =~= right@);
    hash::blake3_digest(buf.as_slice())
}

/// The trees whose nodes are hashed with Blake3.
pub struct Blake3Tree;

impl Compressor for Blake3Tree {
    type D = Digest;

    type V = Seq<u8>;

    open spec fn model(d: Digest) -> Seq<u8> {
        d@
    }

    open spec fn node(left: Seq<u8>, right: Seq<u8>) -> Seq<u8> {
        self::node(left, right)
    }

    fn compress(left: &Digest, right: &Digest) -> Digest {
        self::compress(left, right)
    }
}

/// Expands a pruned multi-opening into one complete path per query.
///
/// `indices` and `leaves` are in query order, as the transcript produced them;
/// duplicates are allowed and share a path. `boundaries` is the proof's
/// boundary digests, `log_leaves` is `log2` of the domain and `cap_height`
/// that of the Merkle cap the tree is committed as (`0` for a single root).
pub fn expand(
    boundaries: &[Digest],
    indices: &[usize],
    leaves: &[Digest],
    log_leaves: usize,
    cap_height: usize,
) -> (r: Result<Vec<Path<Digest>>, Error>)
    requires
        merkle::well_indexed(merkle::ints(indices@), leaves@.len(), log_leaves as nat)
            ==> cap_height <= log_leaves,
    ensures
        expanded(boundaries@, indices@, leaves@, log_leaves as nat, cap_height as nat, r),
{
    merkle::expand::<Blake3Tree>(boundaries, indices, leaves, log_leaves, cap_height)
}

/// What [`expand`] returns on every input.
pub open spec fn expanded(
    boundaries: Seq<Digest>,
    indices: Seq<usize>,
    leaves: Seq<Digest>,
    log_leaves: nat,
    cap_height: nat,
    r: Result<Vec<Path<Digest>>, Error>,
) -> bool {
    let idx = merkle::ints(indices);
    let depth = (log_leaves - cap_height) as nat;
    let count = merkle::boundary_count(merkle::sorted_unique(idx), depth);
    if indices.len() != leaves.len() {
        r == Err::<Vec<Path<Digest>>, Error>(
            Error::MissingLeaf {
                index: if indices.len() < leaves.len() {
                    indices.len() as usize
                } else {
                    leaves.len() as usize
                },
            },
        )
    } else if !merkle::well_indexed(idx, leaves.len(), log_leaves) {
        r == Err::<Vec<Path<Digest>>, Error>(
            Error::IndexOutOfRange {
                index: indices[merkle::first_out_of_range(idx, log_leaves)],
                depth: log_leaves as usize,
            },
        )
    } else if boundaries.len() != count {
        r == Err::<Vec<Path<Digest>>, Error>(
            Error::SiblingCount {
                expected: if count <= usize::MAX {
                    count as usize
                } else {
                    usize::MAX
                },
                got: boundaries.len() as usize,
            },
        )
    } else {
        r is Ok && merkle::expansion::<Blake3Tree>(
            merkle::models::<Blake3Tree>(boundaries),
            idx,
            merkle::models::<Blake3Tree>(leaves),
            depth,
            r->Ok_0@,
        )
    }
}

} // verus!

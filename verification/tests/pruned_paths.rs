//! Pruned multi-openings of Plonky3's Poseidon2 trees, expanded.

use bitcoin_stark_verifier::poseidon2::reference::{hash_row, merkle_root};
use bitcoin_stark_verifier::whir::pruned;
use bitcoin_stark_verifier::whir_gc::pruned as blake3_pruned;
use p3_commit::Mmcs;
use p3_field::{Field, PrimeCharacteristicRing, PrimeField32};
use p3_koala_bear::{default_koalabear_poseidon2_16, KoalaBear, Poseidon2KoalaBear};
use p3_matrix::dense::RowMajorMatrix;
use p3_merkle_tree::MerkleTreeMmcs;
use p3_symmetric::{PaddingFreeSponge, TruncatedPermutation};

const DIGEST: usize = 8;

type F = KoalaBear;
type Perm = Poseidon2KoalaBear<16>;
type MyHash = PaddingFreeSponge<Perm, 16, 8, 8>;
type MyCompress = TruncatedPermutation<Perm, 2, 8, 16>;
type PackedF = <F as Field>::Packing;
type MyMmcs = MerkleTreeMmcs<PackedF, PackedF, MyHash, MyCompress, 2, 8>;

fn u32s(d: &[F; DIGEST]) -> [u32; DIGEST] {
    core::array::from_fn(|i| d[i].as_canonical_u32())
}

/// A tree, an opening at several indices, and the pruned proof over them.
fn open(
    depth: usize,
    width: usize,
    indices: &[usize],
) -> ([u32; DIGEST], Vec<[u32; DIGEST]>, Vec<[u32; DIGEST]>) {
    let perm = default_koalabear_poseidon2_16();
    let mmcs = MyMmcs::new(MyHash::new(perm.clone()), MyCompress::new(perm), 0);

    let height = 1usize << depth;
    let values: Vec<F> = (0..height * width).map(|i| F::from_u32(1000 + i as u32)).collect();
    let (root, data) = mmcs.commit_matrix(RowMajorMatrix::new(values, width));

    let (opened, pruned_proof) = mmcs.open_multi_batch(indices, &data);

    // The leaf is the hash of the opened row, which is what the tree stores.
    let leaves: Vec<[u32; DIGEST]> = opened
        .iter()
        .map(|per_query| {
            let row: Vec<u32> = per_query[0].iter().map(|x| x.as_canonical_u32()).collect();
            hash_row(&row)
        })
        .collect();

    let boundaries: Vec<[u32; DIGEST]> = pruned_proof.sibling_hashes.iter().map(u32s).collect();
    let root_c: [u32; DIGEST] = u32s(&root.roots()[0]);
    (root_c, leaves, boundaries)
}

/// Every expanded path reaches the committed root, for a range of query sets.
///
/// The interesting cases are the ones pruning actually compresses: adjacent
/// leaves share a parent, so the proof omits their mutual siblings and `expand`
/// has to recompute them rather than read them off the wire.
#[test]
fn expanded_paths_reach_the_committed_root() {
    let depth = 4;
    for indices in [
        vec![11usize],               // a lone leaf: the path is fully supplied
        vec![2, 3],                  // siblings: neither sibling is on the wire
        vec![0, 1, 2, 3],            // a whole subtree: most of it recomputed
        vec![0, 5, 9, 14],           // scattered
        vec![1, 1, 7],               // a duplicate query
        (0..16).collect::<Vec<_>>(), // every leaf: nothing left to supply
    ] {
        let (root, leaves, boundaries) = open(depth, 1, &indices);
        let paths = pruned::expand(&boundaries, &indices, &leaves, depth)
            .unwrap_or_else(|e| panic!("expand failed on {indices:?}: {e:?}"));
        assert_eq!(paths.len(), indices.len(), "one path per query, duplicates included");

        for p in &paths {
            assert_eq!(p.siblings.len(), depth, "a full path has one sibling per level");
            let bits: Vec<bool> = (0..depth).map(|i| (p.index >> i) & 1 == 1).collect();
            assert_eq!(
                merkle_root(p.leaf, &p.siblings, &bits),
                root,
                "expanded path for leaf {} of {indices:?} missed the root",
                p.index
            );
        }
    }
}

/// A proof carrying the wrong number of boundary digests is refused.
#[test]
fn a_miscounted_proof_is_rejected() {
    let depth = 4;
    let indices = vec![2usize, 9];
    let (_root, leaves, boundaries) = open(depth, 1, &indices);

    let mut short = boundaries.clone();
    short.pop();
    assert!(matches!(
        pruned::expand(&short, &indices, &leaves, depth),
        Err(pruned::Error::SiblingCount { .. })
    ));

    let mut long = boundaries.clone();
    long.push([0; DIGEST]);
    assert!(matches!(
        pruned::expand(&long, &indices, &leaves, depth),
        Err(pruned::Error::SiblingCount { .. })
    ));
}

/// A leaf short and an index past the tree are named.
#[test]
fn missing_leaves_and_stray_indices_are_named() {
    let (_root, leaves, boundaries) = open(4, 3, &[2, 9]);
    assert!(matches!(
        pruned::expand(&boundaries, &[2, 9], &leaves[..1], 4),
        Err(pruned::Error::MissingLeaf { index: 1 })
    ));
    assert!(matches!(
        pruned::expand(&boundaries, &[2, 16], &leaves, 4),
        Err(pruned::Error::IndexOutOfRange { index: 16, depth: 4 })
    ));
}

/// A cap taller than the tree is never looked at where a leaf is short or an index
/// stray.
#[test]
fn a_tall_cap_comes_after_the_indices() {
    let leaves = [[1u8; 32], [2; 32]];
    assert!(matches!(
        blake3_pruned::expand(&[], &[0], &leaves, 1, 5),
        Err(blake3_pruned::Error::MissingLeaf { index: 1 })
    ));
    assert!(matches!(
        blake3_pruned::expand(&[], &[1, 2], &leaves, 1, 5),
        Err(blake3_pruned::Error::IndexOutOfRange { index: 2, depth: 1 })
    ));
}

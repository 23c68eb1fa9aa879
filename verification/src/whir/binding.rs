//! What acceptance rests on: every check, and, where the compression met no
//! collision, one row only for each position of a commitment.
use super::model;
use super::pruned::Poseidon2Tree;
use super::reference::Draws;
use super::verify;
use super::verify::{Opening, VerifyConfig, VerifyData};
use crate::merkle;
use crate::poseidon2::ext4;
use crate::poseidon2::field;
use crate::poseidon2::reference as permutation;
use vstd::prelude::*;

verus! {

/// Row `q` of an opening hashes up its path, from leaf `idx[q]` of `2^depth`, to the
/// root.
pub open spec fn reaches(o: Opening, root: Seq<u32>, idx: Seq<int>, depth: nat, q: int) -> bool {
    merkle::climbed::<Poseidon2Tree>(
        idx[q],
        permutation::row_digest(permutation::ints(o.rows@[q]@)),
        verify::siblings(o, idx, depth, q),
        depth,
    ) == permutation::ints(root)
}

/// Nothing is passed over in a proof that is accepted: its work is done, every row of
/// every opening hashes up to the root it was committed under, every final row folds
/// to the final polynomial's value, and the sumchecks end on the weight times the
/// final value.
pub proof fn law_every_check_counts(
    cfg: VerifyConfig,
    data: VerifyData,
    ch: Draws,
    i: nat,
    q: int,
    l: int,
)
    requires
        verify::accepts(cfg, data, ch),
        i <= cfg.transcript.rounds@.len(),
    ensures
        ch.pow_ok,
        i < cfg.transcript.rounds@.len() && 0 <= q < ch.rounds[i as int].queries.len() ==> {
            &&& data.round_openings@[i as int].rows@.len() == ch.rounds[i as int].queries.len()
            &&& reaches(
                data.round_openings@[i as int],
                if i == 0 {
                    data.transcript.root@
                } else {
                    data.transcript.rounds@[i - 1].root@
                },
                ch.rounds[i as int].queries,
                cfg.transcript.rounds@[i as int].domain_bits as nat,
                q,
            )
        },
        i == cfg.transcript.rounds@.len() && 0 <= q < ch.final_queries.len() ==> {
            &&& data.final_opening.rows@.len() == ch.final_queries.len()
            &&& reaches(
                data.final_opening,
                if i == 0 {
                    data.transcript.root@
                } else {
                    data.transcript.rounds@[i - 1].root@
                },
                ch.final_queries,
                cfg.transcript.final_domain_bits as nat,
                q,
            )
        },
        0 <= l < ch.final_queries.len() ==> model::horner(
            ext4::quads(data.transcript.final_poly@),
            field::power(
                cfg.final_folded_domain_gen as int,
                ch.final_queries[l] as nat,
            ),
        ) == model::multilinear(
            verify::row_elems(data.final_opening.extension, data.final_opening.rows@[l]@),
            if cfg.transcript.rounds@.len() == 0 {
                ch.initial_folding
            } else {
                ch.rounds[cfg.transcript.rounds@.len() - 1].folding
            },
        ),
        verify::final_claim(cfg, data, ch) == ext4::times(
            verify::final_weight(cfg, ch),
            verify::final_value(data, ch),
        ),
{
    let end = verify::last(cfg);
    assert(verify::opened(cfg, data, ch, i));
    assert(verify::opened(cfg, data, ch, end));
    if 0 <= q < verify::positions(cfg, ch, i).len() {
        assert(verify::round_authentic(cfg, data, ch, i, q));
    }
    if 0 <= l < ch.final_queries.len() {
        assert(verify::agrees(cfg, data, ch, l));
    }
}

// ---------------------------------------------------------------------------
// One row for a position.
// ---------------------------------------------------------------------------

/// The two digests compressed on a path at `level`.
pub open spec fn compressed(
    index: int,
    leaf: Seq<int>,
    sibs: Seq<Seq<int>>,
    level: nat,
) -> (Seq<int>, Seq<int>) {
    let cur = merkle::climbed::<Poseidon2Tree>(index, leaf, sibs, level);
    if merkle::ancestor(index, level) % 2 == 1 {
        (sibs[level as int], cur)
    } else {
        (cur, sibs[level as int])
    }
}

/// The parent of two digests.
pub open spec fn parent(pair: (Seq<int>, Seq<int>)) -> Seq<int> {
    permutation::node(pair.0, pair.1)
}

/// No two pairs with one parent are met along two paths.
pub open spec fn no_collision(
    index: int,
    a: Seq<int>,
    xs: Seq<Seq<int>>,
    b: Seq<int>,
    ys: Seq<Seq<int>>,
    depth: nat,
) -> bool {
    forall|level: nat|
        level < depth && parent(#[trigger] compressed(index, a, xs, level)) == parent(
            compressed(index, b, ys, level),
        ) ==> compressed(index, a, xs, level) == compressed(index, b, ys, level)
}

/// Paths that end on one digest start from one leaf.
proof fn lemma_climbs(
    index: int,
    a: Seq<int>,
    xs: Seq<Seq<int>>,
    b: Seq<int>,
    ys: Seq<Seq<int>>,
    depth: nat,
)
    requires
        no_collision(index, a, xs, b, ys, depth),
        merkle::climbed::<Poseidon2Tree>(index, a, xs, depth) == merkle::climbed::<Poseidon2Tree>(
            index,
            b,
            ys,
            depth,
        ),
    ensures
        a == b,
    decreases depth,
{
    if depth > 0 {
        let below = (depth - 1) as nat;
        let (u, v) = (compressed(index, a, xs, below), compressed(index, b, ys, below));
        assert(parent(u) == parent(v));
        assert(u == v);
        lemma_climbs(index, a, xs, b, ys, below);
    }
}

/// Two accepted openings of the same commitment at the same position open the same
/// row, unless two rows with one digest or two pairs with one parent are met.
pub proof fn law_openings_are_bound(
    cfg: VerifyConfig,
    data: VerifyData,
    ch: Draws,
    data2: VerifyData,
    ch2: Draws,
    i: nat,
    q: int,
    q2: int,
)
    requires
        verify::accepts(cfg, data, ch),
        verify::accepts(cfg, data2, ch2),
        i <= cfg.transcript.rounds@.len(),
        verify::root_before(data, i) == verify::root_before(data2, i),
        0 <= q < verify::positions(cfg, ch, i).len(),
        0 <= q2 < verify::positions(cfg, ch2, i).len(),
        verify::positions(cfg, ch, i)[q] == verify::positions(cfg, ch2, i)[q2],
        no_collision(
            verify::positions(cfg, ch, i)[q],
            permutation::row_digest(
                permutation::ints(verify::opening(cfg, data, i).rows@[q]@),
            ),
            verify::siblings(
                verify::opening(cfg, data, i),
                verify::positions(cfg, ch, i),
                verify::depth(cfg, i),
                q,
            ),
            permutation::row_digest(
                permutation::ints(verify::opening(cfg, data2, i).rows@[q2]@),
            ),
            verify::siblings(
                verify::opening(cfg, data2, i),
                verify::positions(cfg, ch2, i),
                verify::depth(cfg, i),
                q2,
            ),
            verify::depth(cfg, i),
        ),
        permutation::row_digest(permutation::ints(verify::opening(cfg, data, i).rows@[q]@))
            == permutation::row_digest(
            permutation::ints(verify::opening(cfg, data2, i).rows@[q2]@),
        ) ==> verify::opening(cfg, data, i).rows@[q]@ == verify::opening(cfg, data2, i).rows@[q2]@,
    ensures
        verify::opening(cfg, data, i).rows@[q]@ == verify::opening(cfg, data2, i).rows@[q2]@,
{
    assert(verify::opened(cfg, data, ch, i));
    assert(verify::opened(cfg, data2, ch2, i));
    assert(verify::round_authentic(cfg, data, ch, i, q));
    assert(verify::round_authentic(cfg, data2, ch2, i, q2));
    let depth = verify::depth(cfg, i);
    let (o, o2) = (verify::opening(cfg, data, i), verify::opening(cfg, data2, i));
    let (m, n) = (verify::positions(cfg, ch, i), verify::positions(cfg, ch2, i));
    lemma_climbs(
        m[q],
        permutation::row_digest(permutation::ints(o.rows@[q]@)),
        verify::siblings(o, m, depth, q),
        permutation::row_digest(permutation::ints(o2.rows@[q2]@)),
        verify::siblings(o2, n, depth, q2),
        depth,
    );
}

} // verus!

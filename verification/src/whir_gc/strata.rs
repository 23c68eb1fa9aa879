//! Where the queried positions lie: all of them, or one in every stratum of a few
//! partitions of the domain.
use super::bytes;
use super::protocol;
use super::protocol::Machine;
use vstd::arithmetic::power2::{lemma_pow2_adds, lemma_pow2_pos, lemma_pow2_unfold, pow2};
use vstd::prelude::*;

verus! {

/// The partition of depth `depth` at place `at` of the queries: its query `k` lies
/// in the `k`-th of `2^depth` equal parts of the domain.
pub open spec fn one_in_each(queries: Seq<nat>, at: int, width: nat, depth: nat) -> bool {
    forall|k: int|
        0 <= k < pow2(depth) ==> {
            let q = #[trigger] queries[at + k];
            &&& q < pow2(width)
            &&& q / pow2((width - depth) as nat) == k
        }
}

proof fn lemma_draw_len<St>(m: Machine<St>, st: St, n: nat)
    ensures
        protocol::draw_all(m, st, n).1.len() == n,
    decreases n,
{
    if n > 0 {
        lemma_draw_len(m, st, (n - 1) as nat);
    }
}

proof fn lemma_strata<St>(m: Machine<St>, st: St, width: nat, depth: nat, n: nat)
    requires
        depth <= width <= 64,
        n <= pow2(depth),
    ensures
        protocol::strata(m, st, width, depth, n).1.len() == n,
        forall|k: int|
            0 <= k < n ==> {
                let q = #[trigger] protocol::strata(m, st, width, depth, n).1[k];
                &&& q < pow2(width)
                &&& q / pow2((width - depth) as nat) == k
            },
    decreases n,
{
    if n > 0 {
        let j = (n - 1) as nat;
        lemma_strata(m, st, width, depth, j);
        let low = (width - depth) as nat;
        let s = protocol::strata(m, st, width, depth, j).0;
        lemma_draw_len(m, s, 8);
        let b = protocol::draw_low(m, s, low).1;
        bytes::lemma_nat_of_bound(b);
        let v = bytes::nat_of(b) as int;
        let part = pow2(low) as int;
        lemma_pow2_pos(low);
        let q = j * part + v;
        vstd::arithmetic::div_mod::lemma_fundamental_div_mod_converse(q, part, j as int, v);
        lemma_pow2_adds(low, depth);
        assert(j * part + v < part * pow2(depth)) by (nonlinear_arith)
            requires
                v < part,
                j + 1 <= pow2(depth),
                part > 0,
        ;
        assert(j * part >= 0) by (nonlinear_arith)
            requires
                part > 0,
                j >= 0,
        ;
    }
}

proof fn lemma_partitions<St>(m: Machine<St>, st: St, width: nat, depths: Seq<nat>)
    requires
        width <= 64,
        forall|j: int| 0 <= j < depths.len() ==> #[trigger] depths[j] <= width,
    ensures
        protocol::partitions(m, st, width, depths).1.len() == protocol::total_strata(depths),
        forall|j: int|
            0 <= j < depths.len() ==> one_in_each(
                protocol::partitions(m, st, width, depths).1,
                protocol::total_strata(#[trigger] depths.take(j)) as int,
                width,
                depths[j],
            ),
    decreases depths.len(),
{
    if depths.len() > 0 {
        let front = depths.drop_last();
        let n = front.len() as int;
        assert forall|j: int| 0 <= j < front.len() implies #[trigger] front[j] <= width by {
            assert(front[j] == depths[j]);
        }
        lemma_partitions(m, st, width, front);
        assert(depths[n] <= width);
        let (s, earlier) = protocol::partitions(m, st, width, front);
        lemma_strata(m, s, width, depths[n], pow2(depths[n]));
        let more = protocol::strata(m, s, width, depths[n], pow2(depths[n])).1;
        let all = protocol::partitions(m, st, width, depths).1;
        assert(all == earlier + more);
        assert forall|j: int| 0 <= j < depths.len() implies one_in_each(
            all,
            protocol::total_strata(#[trigger] depths.take(j)) as int,
            width,
            depths[j],
        ) by {
            let at = protocol::total_strata(depths.take(j)) as int;
            if j < n {
                assert(front.take(j) =~= depths.take(j));
                assert(one_in_each(earlier, at, width, front[j]));
                lemma_total_monotone(front, j + 1);
                assert(front.take(j + 1).drop_last() =~= front.take(j));
                assert forall|k: int| 0 <= k < pow2(depths[j]) implies {
                    let q = #[trigger] all[at + k];
                    &&& q < pow2(width)
                    &&& q / pow2((width - depths[j]) as nat) == k
                } by {
                    assert(all[at + k] == earlier[at + k]);
                }
            } else {
                assert(depths.take(j) =~= front);
                assert forall|k: int| 0 <= k < pow2(depths[j]) implies {
                    let q = #[trigger] all[at + k];
                    &&& q < pow2(width)
                    &&& q / pow2((width - depths[j]) as nat) == k
                } by {
                    assert(all[at + k] == more[k]);
                }
            }
        }
    }
}

proof fn lemma_total_monotone(depths: Seq<nat>, j: int)
    requires
        0 <= j <= depths.len(),
    ensures
        protocol::total_strata(depths.take(j)) <= protocol::total_strata(depths),
    decreases depths.len() - j,
{
    if j < depths.len() {
        lemma_total_monotone(depths, j + 1);
        assert(depths.take(j + 1).drop_last() =~= depths.take(j));
    } else {
        assert(depths.take(j) =~= depths);
    }
}

/// The depths are the places of the count's set bits, the highest first.
proof fn lemma_depths(n: nat, top: nat)
    requires
        n < pow2(top),
    ensures
        forall|j: int|
            0 <= j < protocol::summand_depths(n).len() ==> #[trigger] protocol::summand_depths(
                n,
            )[j] < top,
        forall|i: int, j: int|
            0 <= i < j < protocol::summand_depths(n).len() ==> #[trigger] protocol::summand_depths(
                n,
            )[i] > #[trigger] protocol::summand_depths(n)[j],
    decreases n,
{
    if n > 0 {
        let d = protocol::log2(n);
        protocol::lemma_log2(n);
        lemma_pow2_pos(d);
        if d >= top {
            if d > top {
                vstd::arithmetic::power2::lemma_pow2_strictly_increases(top, d);
            }
        }
        lemma_pow2_unfold(d + 1);
        let rest = (n - pow2(d)) as nat;
        lemma_depths(rest, d);
        let ds = protocol::summand_depths(n);
        let tail = protocol::summand_depths(rest);
        assert forall|j: int| 0 <= j < ds.len() implies #[trigger] ds[j] < top by {
            if j > 0 {
                assert(ds[j] == tail[j - 1]);
            }
        }
        assert forall|i: int, j: int| 0 <= i < j < ds.len() implies #[trigger] ds[i]
            > #[trigger] ds[j] by {
            assert(ds[j] == tail[j - 1]);
            if i > 0 {
                assert(ds[i] == tail[i - 1]);
            }
        }
    }
}

/// Queries that would not outnumber the domain are stratified: for each set bit of
/// their count, the highest first, one in every part of a partition of the domain
/// into that many equal parts, in order. Otherwise every position is opened once,
/// in order.
pub proof fn law_queries_are_stratified<St>(m: Machine<St>, st: St, width: nat, n: nat)
    requires
        width <= 64,
        n > 0,
    ensures
        ({
            let queries = protocol::stir_queries(m, st, width, n).1;
            let depths = protocol::summand_depths(n);
            if n >= pow2(width) {
                &&& queries.len() == pow2(width)
                &&& forall|i: int| 0 <= i < queries.len() ==> #[trigger] queries[i] == i
                &&& protocol::stir_queries(m, st, width, n).0 == st
            } else {
                &&& queries.len() == n
                &&& protocol::total_strata(depths) == n
                &&& forall|i: int, j: int|
                    0 <= i < j < depths.len() ==> #[trigger] depths[i] > #[trigger] depths[j]
                &&& forall|j: int|
                    0 <= j < depths.len() ==> one_in_each(
                        queries,
                        protocol::total_strata(#[trigger] depths.take(j)) as int,
                        width,
                        depths[j],
                    )
            }
        }),
{
    let depths = protocol::summand_depths(n);
    protocol::law_query_count(m, st, width, n);
    if n < pow2(width) {
        lemma_depths(n, width);
        assert forall|j: int| 0 <= j < depths.len() implies #[trigger] depths[j] <= width by {}
        lemma_partitions(m, st, width, depths);
    }
}

} // verus!

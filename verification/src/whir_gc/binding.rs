//! What acceptance rests on: every check, and, where the hash met no collision, one
//! row only for each position of a commitment.
use super::bytes;
use super::field;
use super::field::Elt;
use super::honest::Binary;
use super::protocol;
use super::protocol::{Auth, ByteHash, Draws, ProofM};
use super::reference::Config;
use crate::merkle;
use crate::multilinear;
use crate::multilinear::Algebra;
use vstd::prelude::*;

verus! {

/// Nothing is passed over in a proof that is accepted: its work is done, every row of
/// every opening hashes up to the root that its position stands under, every final
/// row folds to the final polynomial's value, and the sumchecks end on the weight
/// times the final value.
pub proof fn law_every_check_counts(
    h: ByteHash,
    cfg: Config,
    p: ProofM,
    auth: Seq<Auth>,
    draws: Draws,
    given: Seq<Seq<Elt>>,
    i: nat,
    q: int,
    l: int,
)
    requires
        protocol::accepts(h, cfg, p, auth, draws, given),
        i <= p.rounds.len(),
        p.rounds.len() == draws.rounds.len(),
        p.rounds.len() == cfg.rounds@.len(),
    ensures
        draws.pow_ok,
        i < p.rounds.len() && 0 <= q < draws.rounds[i as int].queries.len() ==> reaches(
            h,
            auth[i as int],
            if i == 0 {
                p.cap
            } else {
                p.rounds[i - 1].cap
            },
            draws.rounds[i as int].queries[q],
            cfg.rounds@[i as int].index_width as nat,
            q,
        ),
        i == p.rounds.len() && 0 <= q < draws.final_queries.len() ==> reaches(
            h,
            auth[i as int],
            if i == 0 {
                p.cap
            } else {
                p.rounds[i - 1].cap
            },
            draws.final_queries[q],
            cfg.final_index_width as nat,
            q,
        ),
        0 <= l < draws.final_queries.len() ==> protocol::eval_coefficients(
            p.final_poly,
            protocol::query_point(protocol::log2(p.final_poly.len()), draws.final_queries[l]),
        ) == protocol::eval_multilinear(
            p.final_rows[l],
            protocol::reversed(
                if p.rounds.len() == 0 {
                    draws.initial_folding
                } else {
                    draws.rounds.last().folding
                },
            ),
        ),
        protocol::final_claim(cfg, p, draws) == field::times(
            protocol::final_weight(cfg, p, draws, given),
            protocol::final_value(p, draws),
        ),
{
    assert(protocol::round_authentic(h, cfg, p, auth, draws, i));
    if 0 <= l < draws.final_queries.len() {
        assert(protocol::final_query_ok(p, draws, l));
    }
    let queries = protocol::queries_of(draws, i);
    if 0 <= q < queries.len() {
        assert(protocol::query_authentic(
            h,
            auth[i as int].rows,
            auth[i as int].paths,
            protocol::cap_before(p, i),
            queries,
            protocol::width_of(cfg, i),
            q,
        ));
    }
}

/// Row `q` of an opening hashes up its path, from leaf `index` of `2^width`, to the
/// root of the cap that the leaf stands under.
pub open spec fn reaches(
    h: ByteHash,
    a: Auth,
    cap: Seq<u8>,
    index: nat,
    width: nat,
    q: int,
) -> bool {
    let depth = (width - protocol::log2(cap.len() / 32)) as nat;
    let root = merkle::ancestor(index as int, depth);
    protocol::climb(h, index, h(protocol::row_bytes(a.rows[q])), a.paths[q], depth) == cap.subrange(
        32 * root,
        32 * root + 32,
    )
}

// ---------------------------------------------------------------------------
// One row for a position.
// ---------------------------------------------------------------------------

/// The bytes hashed on a path at `level`.
pub open spec fn hashed(
    h: ByteHash,
    index: nat,
    leaf: Seq<u8>,
    sibs: Seq<Seq<u8>>,
    level: nat,
) -> Seq<u8> {
    let cur = protocol::climb(h, index, leaf, sibs, level);
    if merkle::ancestor(index as int, level) % 2 == 1 {
        sibs[level as int] + cur
    } else {
        cur + sibs[level as int]
    }
}

/// No two inputs with one digest are met along two paths from rows `x` and `y`.
pub open spec fn no_collision(
    h: ByteHash,
    index: nat,
    x: Seq<Elt>,
    xs: Seq<Seq<u8>>,
    y: Seq<Elt>,
    ys: Seq<Seq<u8>>,
    depth: nat,
) -> bool {
    let (a, b) = (protocol::row_bytes(x), protocol::row_bytes(y));
    &&& h(a) == h(b) ==> a == b
    &&& forall|level: nat|
        level < depth && h(#[trigger] hashed(h, index, h(a), xs, level)) == h(
            hashed(h, index, h(b), ys, level),
        ) ==> hashed(h, index, h(a), xs, level) == hashed(h, index, h(b), ys, level)
}

proof fn lemma_row_bytes(x: Seq<Elt>)
    requires
        multilinear::point::<Binary>(x),
    ensures
        protocol::row_bytes(x).len() == 16 * x.len(),
    decreases x.len(),
{
    if x.len() > 0 {
        let f = x.drop_last();
        assert forall|i: int| 0 <= i < f.len() implies Binary::has(#[trigger] f[i]) by {
            assert(Binary::has(x[i]));
        }
        lemma_row_bytes(f);
        assert(Binary::has(x[x.len() - 1]));
    }
}

/// Rows with the same bytes are the same.
proof fn lemma_rows(x: Seq<Elt>, y: Seq<Elt>)
    requires
        multilinear::point::<Binary>(x),
        multilinear::point::<Binary>(y),
        protocol::row_bytes(x) == protocol::row_bytes(y),
    ensures
        x == y,
    decreases x.len(),
{
    lemma_row_bytes(x);
    lemma_row_bytes(y);
    if x.len() == 0 {
        assert(x =~= y);
    } else {
        let n = x.len() - 1;
        let (f, g) = (x.drop_last(), y.drop_last());
        assert forall|i: int| 0 <= i < f.len() implies Binary::has(#[trigger] f[i]) by {
            assert(Binary::has(x[i]));
        }
        assert forall|i: int| 0 <= i < g.len() implies Binary::has(#[trigger] g[i]) by {
            assert(Binary::has(y[i]));
        }
        lemma_row_bytes(f);
        lemma_row_bytes(g);
        assert(Binary::has(x[n]) && Binary::has(y[n]));
        let (a, b) = (protocol::row_bytes(f), protocol::row_bytes(g));
        let (s, t) = (bytes::bytes_of_bits(x[n]), bytes::bytes_of_bits(y[n]));
        assert(a =~= (a + s).take(16 * n));
        assert(b =~= (b + t).take(16 * n));
        assert(s =~= (a + s).skip(16 * n));
        assert(t =~= (b + t).skip(16 * n));
        bytes::lemma_bits_of_bytes_of_bits(x[n]);
        bytes::lemma_bits_of_bytes_of_bits(y[n]);
        lemma_rows(f, g);
        assert(x =~= f.push(x[n]));
        assert(y =~= g.push(y[n]));
    }
}

proof fn lemma_climb_len(
    h: ByteHash,
    index: nat,
    leaf: Seq<u8>,
    sibs: Seq<Seq<u8>>,
    level: nat,
)
    requires
        forall|x: Seq<u8>| (#[trigger] h(x)).len() == 32,
        leaf.len() == 32,
    ensures
        protocol::climb(h, index, leaf, sibs, level).len() == 32,
    decreases level,
{
    if level > 0 {
        lemma_climb_len(h, index, leaf, sibs, (level - 1) as nat);
    }
}

/// Paths that end on one digest start from one row.
proof fn lemma_climbs(
    h: ByteHash,
    index: nat,
    x: Seq<Elt>,
    xs: Seq<Seq<u8>>,
    y: Seq<Elt>,
    ys: Seq<Seq<u8>>,
    depth: nat,
)
    requires
        forall|b: Seq<u8>| (#[trigger] h(b)).len() == 32,
        multilinear::point::<Binary>(x),
        multilinear::point::<Binary>(y),
        forall|l: int|
            0 <= l < depth ==> (#[trigger] xs[l]).len() == 32,
        forall|l: int|
            0 <= l < depth ==> (#[trigger] ys[l]).len() == 32,
        no_collision(h, index, x, xs, y, ys, depth),
        protocol::climb(h, index, h(protocol::row_bytes(x)), xs, depth) == protocol::climb(
            h,
            index,
            h(protocol::row_bytes(y)),
            ys,
            depth,
        ),
    ensures
        x == y,
    decreases depth,
{
    let (a, b) = (h(protocol::row_bytes(x)), h(protocol::row_bytes(y)));
    if depth == 0 {
        lemma_rows(x, y);
    } else {
        let below = (depth - 1) as nat;
        lemma_climb_len(h, index, a, xs, below);
        lemma_climb_len(h, index, b, ys, below);
        let (c, d) = (
            protocol::climb(h, index, a, xs, below),
            protocol::climb(h, index, b, ys, below),
        );
        let (u, v) = (hashed(h, index, a, xs, below), hashed(h, index, b, ys, below));
        assert(h(u) == h(v));
        assert(u == v);
        let (s, t) = (xs[below as int], ys[below as int]);
        assert(s.len() == 32 && t.len() == 32);
        if merkle::ancestor(index as int, below) % 2 == 1 {
            assert((s + c).skip(32) =~= c);
            assert((t + d).skip(32) =~= d);
        } else {
            assert((c + s).take(32) =~= c);
            assert((d + t).take(32) =~= d);
        }
        lemma_climbs(h, index, x, xs, y, ys, below);
    }
}

/// Two accepted openings of the same commitment at the same position open the same
/// row, unless a collision of the hash is met along their paths.
pub proof fn law_openings_are_bound(
    h: ByteHash,
    cfg: Config,
    p: ProofM,
    auth: Seq<Auth>,
    draws: Draws,
    given: Seq<Seq<Elt>>,
    p2: ProofM,
    auth2: Seq<Auth>,
    draws2: Draws,
    given2: Seq<Seq<Elt>>,
    i: nat,
    q: int,
    q2: int,
)
    requires
        forall|b: Seq<u8>| (#[trigger] h(b)).len() == 32,
        protocol::accepts(h, cfg, p, auth, draws, given),
        protocol::accepts(h, cfg, p2, auth2, draws2, given2),
        i <= p.rounds.len(),
        i <= p2.rounds.len(),
        protocol::cap_before(p, i) == protocol::cap_before(p2, i),
        0 <= q < protocol::queries_of(draws, i).len(),
        0 <= q2 < protocol::queries_of(draws2, i).len(),
        protocol::queries_of(draws, i)[q] == protocol::queries_of(draws2, i)[q2],
        multilinear::point::<Binary>(auth[i as int].rows[q]),
        multilinear::point::<Binary>(auth2[i as int].rows[q2]),
        forall|l: int|
            0 <= l < protocol::path_depth(protocol::cap_before(p, i), protocol::width_of(cfg, i))
                ==> (#[trigger] auth[i as int].paths[q][l]).len() == 32,
        forall|l: int|
            0 <= l < protocol::path_depth(protocol::cap_before(p, i), protocol::width_of(cfg, i))
                ==> (#[trigger] auth2[i as int].paths[q2][l]).len() == 32,
        no_collision(
            h,
            protocol::queries_of(draws, i)[q],
            auth[i as int].rows[q],
            auth[i as int].paths[q],
            auth2[i as int].rows[q2],
            auth2[i as int].paths[q2],
            protocol::path_depth(protocol::cap_before(p, i), protocol::width_of(cfg, i)),
        ),
    ensures
        auth[i as int].rows[q] == auth2[i as int].rows[q2],
{
    let cap = protocol::cap_before(p, i);
    let width = protocol::width_of(cfg, i);
    let (a, b) = (auth[i as int], auth2[i as int]);
    assert(protocol::round_authentic(h, cfg, p, auth, draws, i));
    assert(protocol::round_authentic(h, cfg, p2, auth2, draws2, i));
    let (m, n) = (protocol::queries_of(draws, i), protocol::queries_of(draws2, i));
    assert(protocol::query_authentic(h, a.rows, a.paths, cap, m, width, q));
    assert(protocol::query_authentic(h, b.rows, b.paths, cap, n, width, q2));
    lemma_climbs(
        h,
        m[q],
        a.rows[q],
        a.paths[q],
        b.rows[q2],
        b.paths[q2],
        protocol::path_depth(cap, width),
    );
}

} // verus!

//! Where a proof's messages stand among the input wires. The place of every
//! message follows from the proof's shape alone, so that one circuit serves
//! every proof of its shape.
use super::bytes;
use super::field::Elt;
use super::netlist::Env;
use super::protocol::{Auth, Paths, ProofM, RoundM, SumcheckM};
use super::reference::{Config, Data};
use super::wire_inputs;
use vstd::prelude::*;

verus! {

/// The bits on `n` input wires from `start` on.
pub open spec fn bits(env: Env, start: int, n: nat) -> Seq<bool> {
    Seq::new(n, |i: int| env(start + i))
}

pub open spec fn byte_string(env: Env, start: int, n: nat) -> Seq<u8> {
    bytes::bytes_of_bits(bits(env, start, 8 * n))
}

/// `n` elements from `start` on.
pub open spec fn elems(env: Env, start: int, n: nat) -> Seq<Elt> {
    Seq::new(n, |k: int| bits(env, start + 128 * k, 128))
}

/// The wires of rows of the given lengths.
pub open spec fn rows_size(lens: Seq<nat>) -> nat
    decreases lens.len(),
{
    if lens.len() == 0 {
        0
    } else {
        rows_size(lens.drop_last()) + 128 * lens.last()
    }
}

/// Rows of the given lengths from `start` on.
pub open spec fn rows(env: Env, start: int, lens: Seq<nat>) -> Seq<Seq<Elt>>
    decreases lens.len(),
{
    if lens.len() == 0 {
        Seq::empty()
    } else {
        rows(env, start, lens.drop_last()).push(
            elems(env, start + rows_size(lens.drop_last()), lens.last()),
        )
    }
}

/// The digests of one path from `start` on.
pub open spec fn path(env: Env, start: int, depth: nat) -> Seq<Seq<u8>> {
    Seq::new(depth, |l: int| byte_string(env, start + 256 * l, 32))
}

pub open spec fn paths_size(count: nat, depth: nat) -> nat
    decreases count,
{
    if count == 0 {
        0
    } else {
        paths_size((count - 1) as nat, depth) + 256 * depth
    }
}

/// `count` paths from `start` on.
pub open spec fn paths(env: Env, start: int, count: nat, depth: nat) -> Paths
    decreases count,
{
    if count == 0 {
        Seq::empty()
    } else {
        paths(env, start, (count - 1) as nat, depth).push(
            path(env, start + paths_size((count - 1) as nat, depth), depth),
        )
    }
}

/// An element, where there is one, and otherwise `fallback`.
pub open spec fn optional(env: Env, start: int, some: bool, fallback: Elt) -> Elt {
    if some {
        bits(env, start, 128)
    } else {
        fallback
    }
}

pub open spec fn optional_size(some: bool) -> nat {
    if some {
        128
    } else {
        0
    }
}

/// The wires of `n` rounds of a sumcheck.
pub open spec fn sumcheck_size(n: int, grinds: bool) -> int {
    if grinds {
        384 * n
    } else {
        256 * n
    }
}

/// One message of a sumcheck.
pub open spec fn sumcheck_message(env: Env, start: int, grinds: bool, fallback: SumcheckM) -> SumcheckM {
    SumcheckM {
        c0: bits(env, start, 128),
        c_inf: bits(env, start + 128, 128),
        witness: optional(env, start + 256, grinds, fallback.witness),
    }
}

/// `n` messages of a sumcheck from `start` on.
pub open spec fn sumcheck(
    env: Env,
    start: int,
    n: nat,
    grinds: bool,
    fallback: Seq<SumcheckM>,
) -> Seq<SumcheckM> {
    Seq::new(
        n,
        |k: int|
            sumcheck_message(env, start + sumcheck_size(k, grinds), grinds, fallback[k]),
    )
}

/// The sizes of one round's messages.
pub struct RoundShape {
    pub cap: nat,
    pub ood_answers: nat,
    pub grinds: bool,
    pub sumcheck: nat,
    pub folding_grinds: bool,
    pub rows: Seq<nat>,
    pub depth: nat,
}

/// The sizes of a proof's messages.
pub struct ProofShape {
    pub cap: nat,
    pub initial_ood_answers: nat,
    pub openings: Seq<nat>,
    pub initial_sumcheck: nat,
    pub initial_grinds: bool,
    pub rounds: Seq<RoundShape>,
    pub final_poly: nat,
    pub final_grinds: bool,
    pub final_sumcheck: nat,
    pub final_folding_grinds: bool,
    pub final_rows: Seq<nat>,
    pub final_depth: nat,
}

pub open spec fn lens<A>(xs: Seq<Vec<A>>) -> Seq<nat> {
    Seq::new(xs.len(), |i: int| xs[i]@.len())
}

pub open spec fn round_shape(cfg: Config, d: Data, i: int) -> RoundShape {
    wire_inputs::round_shape(
        cfg.rounds@[i],
        d.rounds@[i],
        wire_inputs::depth_of(cfg, d, i as nat),
    )
}

/// The shape of a proof.
pub open spec fn shape_of(cfg: Config, d: Data) -> ProofShape {
    ProofShape {
        cap: d.cap@.len(),
        initial_ood_answers: d.initial_ood_answers@.len(),
        openings: lens(d.openings@),
        initial_sumcheck: d.initial_sumcheck@.len(),
        initial_grinds: cfg.initial_folding_pow_bits > 0,
        rounds: Seq::new(d.rounds@.len(), |i: int| round_shape(cfg, d, i)),
        final_poly: d.final_poly@.len(),
        final_grinds: cfg.final_pow_bits > 0,
        final_sumcheck: d.final_sumcheck@.len(),
        final_folding_grinds: cfg.final_folding_pow_bits > 0,
        final_rows: lens(d.final_opening.rows@),
        final_depth: wire_inputs::depth_of(cfg, d, d.rounds@.len()),
    }
}

/// The wires of a round's messages before its opening.
pub open spec fn round_head(s: RoundShape) -> nat {
    8 * s.cap + 128 * s.ood_answers + optional_size(s.grinds) + sumcheck_size(
        s.sumcheck as int,
        s.folding_grinds,
    ) as nat
}

pub open spec fn opening_size(rows: Seq<nat>, depth: nat) -> nat {
    rows_size(rows) + paths_size(rows.len(), depth)
}

pub open spec fn round_size(s: RoundShape) -> nat {
    round_head(s) + opening_size(s.rows, s.depth)
}

/// One round's messages from `start` on.
pub open spec fn round(env: Env, start: int, s: RoundShape, fallback: RoundM) -> RoundM {
    let s1 = start + 8 * s.cap;
    let s2 = s1 + 128 * s.ood_answers;
    let s3 = s2 + optional_size(s.grinds);
    RoundM {
        cap: byte_string(env, start, s.cap),
        ood_answers: elems(env, s1, s.ood_answers),
        pow_witness: optional(env, s2, s.grinds, fallback.pow_witness),
        seed_sumcheck: fallback.seed_sumcheck,
        sumcheck: sumcheck(env, s3, s.sumcheck, s.folding_grinds, fallback.sumcheck),
        rows: rows(env, start + round_head(s), s.rows),
    }
}

/// An opening's rows and paths from `start` on.
pub open spec fn auth(env: Env, start: int, lens: Seq<nat>, depth: nat) -> Auth {
    Auth {
        rows: rows(env, start, lens),
        paths: paths(env, start + rows_size(lens), lens.len(), depth),
    }
}

pub open spec fn rounds_size(shapes: Seq<RoundShape>) -> nat
    decreases shapes.len(),
{
    if shapes.len() == 0 {
        0
    } else {
        rounds_size(shapes.drop_last()) + round_size(shapes.last())
    }
}

/// Where round `i` starts among rounds that start at `start`.
pub open spec fn round_start(start: int, shapes: Seq<RoundShape>, i: int) -> int {
    start + rounds_size(shapes.take(i))
}

/// The wires before the rounds.
pub open spec fn head_size(s: ProofShape) -> nat {
    8 * s.cap + 128 * s.initial_ood_answers + rows_size(s.openings) + sumcheck_size(
        s.initial_sumcheck as int,
        s.initial_grinds,
    ) as nat
}

/// The wires between the rounds and the final opening.
pub open spec fn tail_size(s: ProofShape) -> nat {
    128 * s.final_poly + optional_size(s.final_grinds) + sumcheck_size(
        s.final_sumcheck as int,
        s.final_folding_grinds,
    ) as nat
}

/// The wires of a proof.
pub open spec fn size(s: ProofShape) -> nat {
    head_size(s) + rounds_size(s.rounds) + tail_size(s) + opening_size(s.final_rows, s.final_depth)
}

/// The messages on the input wires from `start` on; the seeds, and the grinding
/// witnesses that nobody reads, are those of `fallback`.
pub open spec fn messages(env: Env, start: int, s: ProofShape, fallback: ProofM) -> ProofM {
    let s1 = start + 8 * s.cap;
    let s2 = s1 + 128 * s.initial_ood_answers;
    let s3 = s2 + rows_size(s.openings);
    let s4 = start + head_size(s);
    let s5 = s4 + rounds_size(s.rounds);
    let s6 = s5 + 128 * s.final_poly;
    let s7 = s6 + optional_size(s.final_grinds);
    ProofM {
        seed_commitment: fallback.seed_commitment,
        seed_virtual: fallback.seed_virtual,
        seed_claim: fallback.seed_claim,
        seed_whir_batching: fallback.seed_whir_batching,
        seed_initial_sumcheck: fallback.seed_initial_sumcheck,
        seed_final_sumcheck: fallback.seed_final_sumcheck,
        cap: byte_string(env, start, s.cap),
        initial_ood_answers: elems(env, s1, s.initial_ood_answers),
        openings: rows(env, s2, s.openings),
        initial_sumcheck: sumcheck(
            env,
            s3,
            s.initial_sumcheck,
            s.initial_grinds,
            fallback.initial_sumcheck,
        ),
        rounds: Seq::new(
            s.rounds.len(),
            |i: int| round(env, round_start(s4, s.rounds, i), s.rounds[i], fallback.rounds[i]),
        ),
        final_poly: elems(env, s5, s.final_poly),
        final_pow_witness: optional(env, s6, s.final_grinds, fallback.final_pow_witness),
        final_sumcheck: sumcheck(
            env,
            s7,
            s.final_sumcheck,
            s.final_folding_grinds,
            fallback.final_sumcheck,
        ),
        final_rows: rows(env, s5 + tail_size(s), s.final_rows),
    }
}

/// What is authenticated of the openings on the input wires from `start` on.
pub open spec fn authentications(env: Env, start: int, s: ProofShape) -> Seq<Auth> {
    let s4 = start + head_size(s);
    Seq::new(
        s.rounds.len() + 1,
        |i: int|
            if i < s.rounds.len() {
                let r = s.rounds[i];
                auth(env, round_start(s4, s.rounds, i) + round_head(r), r.rows, r.depth)
            } else {
                auth(
                    env,
                    s4 + rounds_size(s.rounds) + tail_size(s),
                    s.final_rows,
                    s.final_depth,
                )
            },
    )
}

/// The sumcheck witnesses that nobody reads are alike.
pub open spec fn sumchecks_alike(n: nat, grinds: bool, p: Seq<SumcheckM>, q: Seq<SumcheckM>) -> bool {
    grinds || forall|k: int| 0 <= k < n ==> (#[trigger] p[k]).witness == q[k].witness
}

pub open spec fn rounds_alike(s: RoundShape, p: RoundM, q: RoundM) -> bool {
    &&& p.seed_sumcheck == q.seed_sumcheck
    &&& s.grinds || p.pow_witness == q.pow_witness
    &&& sumchecks_alike(s.sumcheck, s.folding_grinds, p.sumcheck, q.sumcheck)
}

/// Two proofs agree in what is not on the wires: the seeds, and the grinding
/// witnesses that nobody reads.
pub open spec fn alike(s: ProofShape, p: ProofM, q: ProofM) -> bool {
    &&& p.seed_commitment == q.seed_commitment
    &&& p.seed_virtual == q.seed_virtual
    &&& p.seed_claim == q.seed_claim
    &&& p.seed_whir_batching == q.seed_whir_batching
    &&& p.seed_initial_sumcheck == q.seed_initial_sumcheck
    &&& p.seed_final_sumcheck == q.seed_final_sumcheck
    &&& sumchecks_alike(
        s.initial_sumcheck,
        s.initial_grinds,
        p.initial_sumcheck,
        q.initial_sumcheck,
    )
    &&& forall|i: int|
        0 <= i < s.rounds.len() ==> rounds_alike(
            s.rounds[i],
            #[trigger] p.rounds[i],
            q.rounds[i],
        )
    &&& s.final_grinds || p.final_pow_witness == q.final_pow_witness
    &&& sumchecks_alike(
        s.final_sumcheck,
        s.final_folding_grinds,
        p.final_sumcheck,
        q.final_sumcheck,
    )
}

proof fn lemma_sumchecks_alike(
    env: Env,
    start: int,
    n: nat,
    grinds: bool,
    p: Seq<SumcheckM>,
    q: Seq<SumcheckM>,
)
    requires
        sumchecks_alike(n, grinds, p, q),
    ensures
        sumcheck(env, start, n, grinds, p) == sumcheck(env, start, n, grinds, q),
{
    assert forall|k: int| 0 <= k < n implies sumcheck(env, start, n, grinds, p)[k] == sumcheck(
        env,
        start,
        n,
        grinds,
        q,
    )[k] by {
        if !grinds {
            assert(p[k].witness == q[k].witness);
        }
    }
    assert(sumcheck(env, start, n, grinds, p) =~= sumcheck(env, start, n, grinds, q));
}

/// Proofs that agree off the wires read alike on the wires.
pub proof fn lemma_alike(env: Env, start: int, s: ProofShape, p: ProofM, q: ProofM)
    requires
        alike(s, p, q),
    ensures
        messages(env, start, s, p) == messages(env, start, s, q),
{
    let s3 = start + 8 * s.cap + 128 * s.initial_ood_answers + rows_size(s.openings);
    let s4 = start + head_size(s);
    let s7 = s4 + rounds_size(s.rounds) + 128 * s.final_poly + optional_size(s.final_grinds);
    lemma_sumchecks_alike(
        env,
        s3,
        s.initial_sumcheck,
        s.initial_grinds,
        p.initial_sumcheck,
        q.initial_sumcheck,
    );
    lemma_sumchecks_alike(
        env,
        s7,
        s.final_sumcheck,
        s.final_folding_grinds,
        p.final_sumcheck,
        q.final_sumcheck,
    );
    let a = messages(env, start, s, p).rounds;
    let b = messages(env, start, s, q).rounds;
    assert forall|i: int| 0 <= i < s.rounds.len() implies a[i] == b[i] by {
        let r = s.rounds[i];
        assert(rounds_alike(r, p.rounds[i], q.rounds[i]));
        let at = round_start(s4, s.rounds, i);
        lemma_sumchecks_alike(
            env,
            at + 8 * r.cap + 128 * r.ood_answers + optional_size(r.grinds),
            r.sumcheck,
            r.folding_grinds,
            p.rounds[i].sumcheck,
            q.rounds[i].sumcheck,
        );
    }
    assert(a =~= b);
}

} // verus!

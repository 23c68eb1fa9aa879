//! The verifier of [`super::reference`] as a boolean circuit.
//!
//! One output wire: 1 iff every check passes, that is each grinding witness,
//! each opened row's Merkle path against the absorbed root, each final query's
//! fold against the final polynomial, and the closing identity. Everything is
//! derived from the input bits: the transcript runs on a challenger over wires
//! with the Blake3 gadget, every challenge is read off its digests, and every
//! opened row is hashed and walked to the root that was absorbed.
//!
//! The transcript's schedule has no branch on the data, so the same circuit
//! serves every proof of a configuration. The sub-transcripts' seeds are
//! constants of the configuration and are baked in as constant wires;
//! everything the prover sends is an input.
use super::field;
use super::field::Elt;
use super::garble;
use super::garble::Garbled;
use super::gates;
use super::gates::{CircuitAdapter, CircuitTrait, GateCounts, ValuedBuilder};
use super::netlist;
use super::netlist::{Env, Netlist};
use super::profile;
use super::protocol;
use super::protocol::{Buffers, ProofM};
use super::pruned;
use super::reference;
use super::reference::{Challenges, Config, Data};
use super::wire_arith;
use super::wire_closing;
use super::wire_closing::{measured, sizes, ConstraintWires};
use super::wire_inputs;
use super::wire_inputs::{carried, expandable, grids, grids_ok};
use super::wire_layout;
use super::wire_sponge;
use super::wire_sponge::{gadget_hash, gadget_machine};
use super::wire_transcript;
use super::wire_transcript::{hold, TranscriptWires};
use super::wires;
use super::wires::{elem_ok, elems_ok};
use vstd::prelude::*;

pub use super::profile::{Phase, Profile};
pub use super::wire_inputs::Inputs;
pub use super::wire_sponge::Sponge;
pub use super::wires::Elem;

verus! {

broadcast use {
    netlist::group_netlist,
    profile::lemma_profile_ext,
    wire_sponge::lemma_sponge_ext,
    wire_sponge::lemma_sponge_wf,
};

/// What a layer in front of the opening hands over: the claims' given points
/// and the values it bound them to (checked equal to the claimed openings).
pub struct PrefixOut {
    pub points: Vec<Vec<Elem>>,
    pub values: Vec<Vec<Elem>>,
}

/// The handover's model, with the transcript's state behind the layer and
/// whether the layer's own checks pass.
pub struct Handover {
    pub st: Buffers,
    pub ok: bool,
    pub points: Seq<Seq<Elt>>,
    pub values: Seq<Seq<Elt>>,
}

/// A layer in front of the opening. It runs on the sponge after the commitment
/// is absorbed, may push its own checks and profile marks, and hands over the
/// claims' given points and values. Its inputs must have been allocated before.
pub trait Prefix: Sized {
    /// The layer's inputs are wires below `n`.
    spec fn ready(&self, n: nat) -> bool;

    /// The arities of the points.
    spec fn point_sizes(&self) -> Seq<nat>;

    /// The sizes of the value lists.
    spec fn value_sizes(&self) -> Seq<nat>;

    /// What the layer computes from its inputs and the transcript's state.
    spec fn outcome(&self, c: Netlist, env: Env, st: Buffers) -> Handover;

    /// Emitting gates leaves the layer's inputs alone.
    proof fn lemma_outcome(&self, a: Netlist, b: Netlist, env: Env, st: Buffers)
        requires
            netlist::ext(a, b),
            self.ready(a.next),
        ensures
            self.ready(b.next),
            self.outcome(b, env, st) == self.outcome(a, env, st),
    ;

    fn run<T: CircuitTrait>(
        self,
        b: &mut T,
        s: &mut Sponge,
        checks: &mut Vec<usize>,
        profile: &mut Profile,
    ) -> (out: PrefixOut)
        requires
            old(b).inv(),
            self.ready(old(b)@.next),
            old(s).wf(old(b)@.next),
            netlist::below(old(checks)@, old(b)@.next),
            old(profile).wf(old(b)@),
        ensures
            final(b).inv(),
            netlist::ext(old(b)@, final(b)@),
            final(s).wf(final(b)@.next),
            netlist::below(final(checks)@, final(b)@.next),
            final(profile).wf(final(b)@),
            sizes(out.points@) == self.point_sizes(),
            sizes(out.values@) == self.value_sizes(),
            grids_ok(out.points@, final(b)@.next),
            grids_ok(out.values@, final(b)@.next),
            forall|env: Env| #[trigger]
                final(s).st(final(b)@, env) == self.outcome(
                    old(b)@,
                    env,
                    old(s).st(old(b)@, env),
                ).st,
            forall|env: Env| #[trigger]
                grids(final(b)@, env, out.points@) == self.outcome(
                    old(b)@,
                    env,
                    old(s).st(old(b)@, env),
                ).points,
            forall|env: Env| #[trigger]
                grids(final(b)@, env, out.values@) == self.outcome(
                    old(b)@,
                    env,
                    old(s).st(old(b)@, env),
                ).values,
            forall|env: Env| #[trigger]
                hold(final(b)@, env, final(checks)@) == (hold(old(b)@, env, old(checks)@)
                    && self.outcome(old(b)@, env, old(s).st(old(b)@, env)).ok),
    ;
}

/// No layer in front of the opening.
pub struct NoPrefix;

impl Prefix for NoPrefix {
    open spec fn ready(&self, n: nat) -> bool {
        true
    }

    open spec fn point_sizes(&self) -> Seq<nat> {
        Seq::empty()
    }

    open spec fn value_sizes(&self) -> Seq<nat> {
        Seq::empty()
    }

    open spec fn outcome(&self, c: Netlist, env: Env, st: Buffers) -> Handover {
        Handover { st, ok: true, points: Seq::empty(), values: Seq::empty() }
    }

    proof fn lemma_outcome(&self, a: Netlist, b: Netlist, env: Env, st: Buffers) {
    }

    fn run<T: CircuitTrait>(
        self,
        b: &mut T,
        s: &mut Sponge,
        checks: &mut Vec<usize>,
        profile: &mut Profile,
    ) -> (out: PrefixOut) {
        let out = PrefixOut { points: Vec::new(), values: Vec::new() };
        proof {
            netlist::lemma_ext_refl(b@);
            assert(sizes(out.points@) =~= Seq::<nat>::empty());
            assert(sizes(out.values@) =~= Seq::<nat>::empty());
            assert forall|env: Env| #[trigger]
                grids(b@, env, out.points@) == Seq::<Seq<Elt>>::empty() by {
                assert(grids(b@, env, out.points@) =~= Seq::<Seq<Elt>>::empty());
            }
            assert forall|env: Env| #[trigger]
                grids(b@, env, out.values@) == Seq::<Seq<Elt>>::empty() by {
                assert(grids(b@, env, out.values@) =~= Seq::<Seq<Elt>>::empty());
            }
        }
        out
    }
}

/// The claimed openings are the values that a layer bound, as far as both go.
pub open spec fn values_match(openings: Seq<Seq<Elt>>, values: Seq<Seq<Elt>>) -> bool {
    forall|i: int|
        0 <= i < openings.len() && i < values.len() ==> (#[trigger] openings[i]) == values[i]
}

/// What the circuit accepts: the layer's checks pass, the claimed openings are
/// the layer's values, and the verifier over the gadget's hash accepts.
pub open spec fn accepted(
    cfg: Config,
    p: ProofM,
    auth: Seq<protocol::Auth>,
    h: Handover,
) -> bool {
    &&& h.ok
    &&& values_match(p.openings, h.values)
    &&& protocol::accepts(
        gadget_hash(),
        cfg,
        p,
        auth,
        protocol::transcript(gadget_machine(), h.st, cfg, p).1,
        h.points,
    )
}

/// The transcript's state after the commitment.
pub open spec fn committed(p: ProofM) -> Buffers {
    protocol::absorb_commitment(gadget_machine(), protocol::empty_buffers(), p)
}

/// The handover fits the claims.
pub open spec fn fits(cfg: Config, d: Data, points: Seq<nat>, values: Seq<nat>) -> bool {
    &&& points.len() == (if cfg.given_points {
        d.openings@.len()
    } else {
        0
    })
    &&& forall|i: int|
        0 <= i < values.len() && i < d.openings@.len() ==> (#[trigger] values[i])
            == d.openings@[i]@.len()
}

/// What building on any backend yields: the output wire, the transcript's
/// flush count and the witness the proof puts on the inputs.
pub struct Shape {
    pub output: usize,
    pub flushes: usize,
    pub witness: Vec<bool>,
    pub profile: Profile,
}

/// `c` is the verifier circuit behind `base`: on every assignment of the
/// inputs `output` says whether the proof on the wires of `inputs` is accepted,
/// the transcript takes `flushes` hashes, and `witness`, which the builder was told
/// its inputs carry, puts `d` on the wires.
/// Where each message stands among the wires follows from `d`'s shape.
pub open spec fn realizes<P: Prefix>(
    cfg: Config,
    d: Data,
    ch: Challenges,
    prefix: P,
    base: Netlist,
    c: Netlist,
    output: usize,
    flushes: usize,
    witness: Seq<bool>,
    inputs: Inputs,
) -> bool {
    &&& output < c.next
    &&& inputs.wf(cfg, d, c.next)
    &&& base.next + witness.len() <= c.next
    &&& forall|i: int|
        0 <= i < witness.len() ==> netlist::says(c, base.next + i, #[trigger] witness[i])
    &&& forall|env: Env| #[trigger]
        netlist::value(c, env, output as int) == ({
            let p = inputs.messages(c, env, d.messages());
            accepted(
                cfg,
                p,
                inputs.authentications(c, env),
                prefix.outcome(c, env, committed(p)),
            )
        })
    &&& forall|env: Env|
        carried(env, base.next, witness) ==> #[trigger] inputs.messages(c, env, d.messages())
            == d.messages()
    &&& forall|env: Env|
        carried(env, base.next, witness) ==> #[trigger] inputs.authentications(c, env) == reference::authentications(
            cfg,
            d,
            ch,
        )
    &&& forall|env: Env| #[trigger]
        flushes_at(cfg, inputs.messages(c, env, d.messages()), prefix, c, env) == flushes
    &&& witness.len() == wire_layout::size(wire_layout::shape_of(cfg, d))
    &&& forall|env: Env| #[trigger]
        inputs.messages(c, env, d.messages()) == wire_layout::messages(
            env,
            base.next as int,
            wire_layout::shape_of(cfg, d),
            d.messages(),
        )
    &&& forall|env: Env| #[trigger]
        inputs.authentications(c, env) == wire_layout::authentications(
            env,
            base.next as int,
            wire_layout::shape_of(cfg, d),
        )
}

/// The number of hashes that the transcript takes.
pub open spec fn flushes_at<P: Prefix>(
    cfg: Config,
    p: ProofM,
    prefix: P,
    c: Netlist,
    env: Env,
) -> nat {
    protocol::transcript(
        gadget_machine(),
        prefix.outcome(c, env, committed(p)).st,
        cfg,
        p,
    ).0.flushes
}

/// Check the claimed openings against the values that a layer bound.
#[verifier::rlimit(30)]
fn match_values<T: CircuitTrait>(
    b: &mut T,
    openings: &Vec<Vec<Elem>>,
    values: &Vec<Vec<Elem>>,
    checks: &mut Vec<usize>,
)
    requires
        old(b).inv(),
        netlist::below(old(checks)@, old(b)@.next),
        grids_ok(openings@, old(b)@.next),
        grids_ok(values@, old(b)@.next),
        forall|i: int|
            0 <= i < openings@.len() && i < values@.len() ==> (#[trigger] openings@[i])@.len()
                == values@[i]@.len(),
    ensures
        final(b).inv(),
        netlist::ext(old(b)@, final(b)@),
        netlist::below(final(checks)@, final(b)@.next),
        forall|env: Env| #[trigger]
            hold(final(b)@, env, final(checks)@) == (hold(old(b)@, env, old(checks)@)
                && values_match(
                grids(old(b)@, env, openings@),
                grids(old(b)@, env, values@),
            )),
{
    let ghost first = b@;
    let ghost checks0 = checks@;
    let ghost same = |env: Env, i: int|
        values_match(grids(first, env, openings@).take(i), grids(first, env, values@));
    let mut i: usize = 0;
    proof {
        netlist::lemma_ext_refl(first);
    }
    while i < openings.len() && i < values.len()
        invariant
            b.inv(),
            netlist::ext(first, b@),
            i <= openings@.len(),
            i <= values@.len(),
            netlist::below(checks@, b@.next),
            grids_ok(openings@, first.next),
            grids_ok(values@, first.next),
            forall|i: int|
                0 <= i < openings@.len() && i < values@.len() ==> (
                #[trigger] openings@[i])@.len() == values@[i]@.len(),
            same == (|env: Env, i: int|
                values_match(grids(first, env, openings@).take(i), grids(first, env, values@))),
            forall|env: Env| #[trigger]
                hold(b@, env, checks@) == (hold(first, env, checks0) && same(env, i as int)),
        decreases openings@.len() - i,
    {
        let ghost c0 = b@;
        let ghost k0 = checks@;
        let n = openings[i].len();
        let mut j: usize = 0;
        let ghost x = openings@[i as int]@;
        let ghost y = values@[i as int]@;
        proof {
            assert(elems_ok(x, first.next));
            assert(elems_ok(y, first.next));
            netlist::lemma_ext_refl(c0);
        }
        let ghost agree = |env: Env, j: int|
            netlist::words(first, env, x).take(j) == netlist::words(first, env, y).take(j);
        proof {
            assert forall|env: Env| #[trigger]
                hold(b@, env, checks@) == (hold(c0, env, k0) && agree(env, 0)) by {
                assert(netlist::words(first, env, x).take(0) =~= netlist::words(
                    first,
                    env,
                    y,
                ).take(0));
            }
        }
        while j < n
            invariant
                b.inv(),
                netlist::ext(first, c0),
                netlist::ext(c0, b@),
                i < openings@.len(),
                i < values@.len(),
                x == openings@[i as int]@,
                y == values@[i as int]@,
                j <= n == x.len() == y.len(),
                elems_ok(x, first.next),
                elems_ok(y, first.next),
                netlist::below(checks@, b@.next),
                agree == (|env: Env, j: int|
                    netlist::words(first, env, x).take(j) == netlist::words(first, env, y).take(
                        j,
                    )),
                forall|env: Env| #[trigger]
                    hold(b@, env, checks@) == (hold(c0, env, k0) && agree(env, j as int)),
            decreases n - j,
        {
            let ghost c1 = b@;
            let ghost k1 = checks@;
            assert(elem_ok(x[j as int]@, first.next));
            assert(elem_ok(y[j as int]@, first.next));
            let check = wires::equal(b, openings[i][j].as_slice(), values[i][j].as_slice());
            checks.push(check);
            proof {
                assert forall|env: Env| #[trigger]
                    hold(b@, env, checks@) == (hold(c0, env, k0) && agree(env, j + 1)) by {
                    let u = netlist::words(first, env, x);
                    let v = netlist::words(first, env, y);
                    assert(hold(c1, env, k1) == (hold(c0, env, k0) && agree(env, j as int)));
                    wire_transcript::lemma_hold_push(b@, env, k1, check);
                    assert(netlist::bits(b@, env, k1) == netlist::bits(c1, env, k1));
                    assert(netlist::bits(c1, env, x[j as int]@) == u[j as int]);
                    assert(netlist::bits(c1, env, y[j as int]@) == v[j as int]);
                    assert(u.take(j + 1) =~= u.take(j as int).push(u[j as int]));
                    assert(v.take(j + 1) =~= v.take(j as int).push(v[j as int]));
                    if agree(env, j + 1) {
                        assert(u.take(j + 1)[j as int] == v.take(j + 1)[j as int]);
                        assert(u.take(j + 1).take(j as int) =~= u.take(j as int));
                        assert(v.take(j + 1).take(j as int) =~= v.take(j as int));
                    }
                }
            }
            j = j + 1;
        }
        proof {
            assert forall|env: Env| #[trigger]
                hold(b@, env, checks@) == (hold(first, env, checks0) && same(env, i + 1)) by {
                assert(hold(c0, env, k0) == (hold(first, env, checks0) && same(env, i as int)));
                let u = netlist::words(first, env, x);
                let v = netlist::words(first, env, y);
                assert(u.take(n as int) =~= u);
                assert(v.take(n as int) =~= v);
                let p = grids(first, env, openings@);
                let q = grids(first, env, values@);
                assert(p.take(i + 1)[i as int] == u);
                assert(q[i as int] == v);
                if same(env, i + 1) {
                    assert(p.take(i + 1)[i as int] == q[i as int]);
                    assert forall|k: int|
                        0 <= k < p.take(i as int).len() && k < q.len() implies (
                    #[trigger] p.take(i as int)[k]) == q[k] by {
                        assert(p.take(i + 1)[k] == q[k]);
                    }
                }
                if same(env, i as int) && u == v {
                    assert forall|k: int|
                        0 <= k < p.take(i + 1).len() && k < q.len() implies (
                    #[trigger] p.take(i + 1)[k]) == q[k] by {
                        if k < i {
                            assert(p.take(i as int)[k] == q[k]);
                        }
                    }
                }
            }
        }
        i = i + 1;
    }
    proof {
        assert forall|env: Env| #[trigger]
            hold(b@, env, checks@) == (hold(first, env, checks0) && values_match(
                grids(first, env, openings@),
                grids(first, env, values@),
            )) by {
            let p = grids(first, env, openings@);
            let q = grids(first, env, values@);
            assert(hold(b@, env, checks@) == (hold(first, env, checks0) && same(env, i as int)));
            if same(env, i as int) {
                assert forall|k: int| 0 <= k < p.len() && k < q.len() implies (#[trigger] p[k])
                    == q[k] by {
                    assert(p.take(i as int)[k] == q[k]);
                }
            }
            if values_match(p, q) {
                assert forall|k: int|
                    0 <= k < p.take(i as int).len() && k < q.len() implies (
                #[trigger] p.take(i as int)[k]) == q[k] by {
                    assert(p[k] == q[k]);
                }
            }
        }
    }
}

/// The first `k` rounds' openings are authentic.
pub open spec fn rounds_up_to(
    cfg: Config,
    p: ProofM,
    auth: Seq<protocol::Auth>,
    draws: protocol::Draws,
    k: nat,
) -> bool {
    forall|i: nat|
        i < k ==> #[trigger] protocol::round_authentic(gadget_hash(), cfg, p, auth, draws, i)
}

/// Wires behind wires.
pub(crate) fn append_checks(checks: &mut Vec<usize>, more: &Vec<usize>)
    ensures
        final(checks)@ == old(checks)@ + more@,
{
    let ghost before = checks@;
    let mut i: usize = 0;
    assert(before + more@.take(0) =~= before);
    while i < more.len()
        invariant
            i <= more@.len(),
            checks@ == before + more@.take(i as int),
        decreases more@.len() - i,
    {
        checks.push(more[i]);
        assert(before + more@.take(i + 1) =~= (before + more@.take(i as int)).push(
            more@[i as int],
        ));
        i = i + 1;
    }
    assert(more@.take(i as int) =~= more@);
}

proof fn lemma_hold_concat(c: Netlist, env: Env, x: Seq<usize>, y: Seq<usize>)
    ensures
        hold(c, env, x + y) == (hold(c, env, x) && hold(c, env, y)),
    decreases y.len(),
{
    if y.len() == 0 {
        assert(x + y =~= x);
    } else {
        lemma_hold_concat(c, env, x, y.drop_last());
        assert(x + y =~= (x + y.drop_last()).push(y.last()));
        wire_transcript::lemma_hold_push(c, env, x + y.drop_last(), y.last());
        assert(y =~= y.drop_last().push(y.last()));
        wire_transcript::lemma_hold_push(c, env, y.drop_last(), y.last());
    }
}

/// The commitment's constraint, and the claim after the initial sumcheck.
#[verifier::rlimit(40)]
fn start<T: CircuitTrait>(
    b: &mut T,
    cfg: &Config,
    d: &Data,
    inputs: &Inputs,
    t: &TranscriptWires,
    given: &Vec<Vec<Elem>>,
    profile: &mut Profile,
) -> (r: (ConstraintWires, Elem))
    requires
        old(b).inv(),
        old(profile).wf(old(b)@),
        inputs.wf(*cfg, *d, old(b)@.next),
        t.wf(*cfg, *d, old(b)@.next),
        grids_ok(given@, old(b)@.next),
        measured(*cfg, *d, sizes(given@)),
    ensures
        final(b).inv(),
        netlist::ext(old(b)@, final(b)@),
        final(profile).wf(final(b)@),
        r.0.wf(final(b)@.next),
        r.0.arity == cfg.num_variables,
        elem_ok(r.1@, final(b)@.next),
        forall|env: Env| #[trigger]
            r.0.model(final(b)@, env) == protocol::initial_constraint(
                *cfg,
                inputs.messages(old(b)@, env, d.messages()),
                t.draws(old(b)@, env),
                grids(old(b)@, env, given@),
            ),
        forall|env: Env| #[trigger]
            netlist::bits(final(b)@, env, r.1@) == protocol::claim_after(
                *cfg,
                inputs.messages(old(b)@, env, d.messages()),
                t.draws(old(b)@, env),
                0,
            ),
{
    let ghost base = b@;
    let ghost data = d.messages();
    let first = wire_closing::initial_constraint(b, cfg, d, t, given, Ghost(*inputs));
    let ghost b1 = b@;
    proof {
        wire_inputs::lemma_inputs_ok(*inputs, *cfg, *d, base.next, b1.next);
        wire_transcript::lemma_transcript_wires_ext(*t, *cfg, *d, base, b1);
    }
    let claim0 = wire_closing::initial_claim(b, cfg, d, inputs, t);
    let ghost b2 = b@;
    let ghost cw = claim0@;
    profile.mark(b, Phase::InitialClaim);
    proof {
        wire_inputs::lemma_sumcheck_ok(
            inputs.initial_sumcheck@,
            cfg.initial_folding_pow_bits > 0,
            base.next,
            b2.next,
        );
    }
    let claim = wire_closing::sumcheck_claim(
        b,
        claim0,
        inputs.initial_sumcheck.as_slice(),
        t.initial_folding.as_slice(),
        Ghost(cfg.initial_folding_pow_bits > 0),
        Ghost(data.initial_sumcheck),
    );
    profile.mark(b, Phase::SumcheckRounds);
    proof {
        wire_closing::lemma_constraint_ext(first, b1, b@);
        assert forall|env: Env| #[trigger]
            netlist::bits(b@, env, claim@) == protocol::claim_after(
                *cfg,
                inputs.messages(base, env, data),
                t.draws(base, env),
                0,
            ) by {
            wire_inputs::lemma_inputs_ext(base, b1, env, *inputs, *cfg, *d, data);
            assert(t.draws(b1, env) == t.draws(base, env));
            assert(netlist::bits(b2, env, cw) == protocol::initial_claim(
                *cfg,
                inputs.messages(base, env, data),
                t.draws(base, env),
            ));
            wire_inputs::lemma_sumcheck_ext(
                base,
                b2,
                env,
                inputs.initial_sumcheck@,
                cfg.initial_folding_pow_bits > 0,
                data.initial_sumcheck,
            );
            assert(netlist::words(b2, env, t.initial_folding@) == t.draws(
                base,
                env,
            ).initial_folding);
        }
        assert forall|env: Env| #[trigger]
            first.model(b@, env) == protocol::initial_constraint(
                *cfg,
                inputs.messages(base, env, data),
                t.draws(base, env),
                grids(base, env, given@),
            ) by {
            assert(first.model(b@, env) == first.model(b1, env));
        }
    }
    (first, claim)
}

/// The rounds' constraints have their models.
pub open spec fn constraints_ok(
    cfg: Config,
    t: TranscriptWires,
    base: Netlist,
    c: Netlist,
    constraints: Seq<ConstraintWires>,
) -> bool {
    &&& forall|j: int|
        0 <= j < constraints.len() ==> (#[trigger] constraints[j]).wf(c.next)
            && constraints[j].arity == cfg.rounds@[j].num_variables
    &&& forall|env: Env, j: int|
        0 <= j < constraints.len() ==> #[trigger] constraints[j].model(c, env)
            == protocol::round_constraint(cfg, t.draws(base, env), j)
}

proof fn lemma_constraints_ok(
    cfg: Config,
    t: TranscriptWires,
    base: Netlist,
    a: Netlist,
    b: Netlist,
    constraints: Seq<ConstraintWires>,
)
    requires
        netlist::ext(a, b),
        constraints_ok(cfg, t, base, a, constraints),
    ensures
        constraints_ok(cfg, t, base, b, constraints),
{
    assert forall|j: int| 0 <= j < constraints.len() implies (#[trigger] constraints[j]).wf(b.next)
        && constraints[j].arity == cfg.rounds@[j].num_variables by {
        wire_closing::lemma_constraint_ext(constraints[j], a, b);
    }
    assert forall|env: Env, j: int| 0 <= j < constraints.len() implies #[trigger] constraints[j].model(
        b,
        env,
    ) == protocol::round_constraint(cfg, t.draws(base, env), j) by {
        wire_closing::lemma_constraint_ext(constraints[j], a, b);
        assert(constraints[j].model(b, env) == constraints[j].model(a, env));
    }
}

/// The rounds, one after another.
#[verifier::rlimit(40)]
fn walk_rounds<T: CircuitTrait>(
    b: &mut T,
    cfg: &Config,
    d: &Data,
    inputs: &Inputs,
    t: &TranscriptWires,
    claim: Elem,
    checks: &mut Vec<usize>,
    profile: &mut Profile,
    Ghost(base): Ghost<Netlist>,
    Ghost(points): Ghost<Seq<nat>>,
) -> (r: (Elem, Vec<ConstraintWires>))
    requires
        old(b).inv(),
        old(profile).wf(old(b)@),
        netlist::ext(base, old(b)@),
        inputs.wf(*cfg, *d, base.next),
        t.wf(*cfg, *d, base.next),
        measured(*cfg, *d, points),
        netlist::below(old(checks)@, old(b)@.next),
        elem_ok(claim@, old(b)@.next),
        forall|env: Env| #[trigger]
            netlist::bits(old(b)@, env, claim@) == protocol::claim_after(
                *cfg,
                inputs.messages(base, env, d.messages()),
                t.draws(base, env),
                0,
            ),
    ensures
        final(b).inv(),
        netlist::ext(old(b)@, final(b)@),
        final(profile).wf(final(b)@),
        netlist::below(final(checks)@, final(b)@.next),
        elem_ok(r.0@, final(b)@.next),
        r.1@.len() == d.rounds@.len(),
        constraints_ok(*cfg, *t, base, final(b)@, r.1@),
        forall|env: Env| #[trigger]
            netlist::bits(final(b)@, env, r.0@) == protocol::claim_after(
                *cfg,
                inputs.messages(base, env, d.messages()),
                t.draws(base, env),
                d.rounds@.len(),
            ),
        forall|env: Env| #[trigger]
            hold(final(b)@, env, final(checks)@) == (hold(old(b)@, env, old(checks)@)
                && rounds_up_to(
                *cfg,
                inputs.messages(base, env, d.messages()),
                inputs.authentications(base, env),
                t.draws(base, env),
                d.rounds@.len(),
            )),
{
    let ghost first = b@;
    let ghost checks0 = checks@;
    let ghost data = d.messages();
    let mut claim = claim;
    let mut constraints: Vec<ConstraintWires> = Vec::new();
    let n = d.rounds.len();
    let mut i: usize = 0;
    proof {
        netlist::lemma_ext_refl(first);
    }
    while i < n
        invariant
            b.inv(),
            profile.wf(b@),
            n == d.rounds@.len(),
            i <= n,
            data == d.messages(),
            measured(*cfg, *d, points),
            netlist::ext(base, b@),
            netlist::ext(first, b@),
            inputs.wf(*cfg, *d, base.next),
            t.wf(*cfg, *d, base.next),
            netlist::below(checks@, b@.next),
            elem_ok(claim@, b@.next),
            constraints@.len() == i,
            constraints_ok(*cfg, *t, base, b@, constraints@),
            forall|env: Env| #[trigger]
                netlist::bits(b@, env, claim@) == protocol::claim_after(
                    *cfg,
                    inputs.messages(base, env, data),
                    t.draws(base, env),
                    i as nat,
                ),
            forall|env: Env| #[trigger]
                hold(b@, env, checks@) == (hold(first, env, checks0) && rounds_up_to(
                    *cfg,
                    inputs.messages(base, env, data),
                    inputs.authentications(base, env),
                    t.draws(base, env),
                    i as nat,
                )),
        decreases n - i,
    {
        let ghost c0 = b@;
        let ghost k0 = checks@;
        let ghost cons0 = constraints@;
        let (after, x) = wire_closing::round_part(
            b,
            cfg,
            d,
            inputs,
            t,
            i,
            claim,
            checks,
            profile,
            Ghost(base),
            Ghost(points),
        );
        claim = after;
        constraints.push(x);
        proof {
            lemma_constraints_ok(*cfg, *t, base, c0, b@, cons0);
            assert forall|j: int| 0 <= j < i + 1 implies (#[trigger] constraints@[j]).wf(b@.next)
                && constraints@[j].arity == cfg.rounds@[j].num_variables by {
                if j < i {
                    assert(constraints@[j] == cons0[j]);
                    assert(cons0[j].wf(b@.next));
                }
            }
            assert forall|env: Env, j: int| 0 <= j < i + 1 implies #[trigger] constraints@[j].model(
                b@,
                env,
            ) == protocol::round_constraint(*cfg, t.draws(base, env), j) by {
                if j < i {
                    assert(constraints@[j] == cons0[j]);
                    assert(cons0[j].model(b@, env) == protocol::round_constraint(
                        *cfg,
                        t.draws(base, env),
                        j,
                    ));
                } else {
                    assert(x.model(b@, env) == protocol::round_constraint(
                        *cfg,
                        t.draws(base, env),
                        i as int,
                    ));
                }
            }
            assert forall|env: Env| #[trigger]
                hold(b@, env, checks@) == (hold(first, env, checks0) && rounds_up_to(
                    *cfg,
                    inputs.messages(base, env, data),
                    inputs.authentications(base, env),
                    t.draws(base, env),
                    (i + 1) as nat,
                )) by {
                let p = inputs.messages(base, env, data);
                let auth = inputs.authentications(base, env);
                let draws = t.draws(base, env);
                assert(hold(c0, env, k0) == (hold(first, env, checks0) && rounds_up_to(
                    *cfg,
                    p,
                    auth,
                    draws,
                    i as nat,
                )));
                if rounds_up_to(*cfg, p, auth, draws, (i + 1) as nat) {
                    assert(protocol::round_authentic(
                        gadget_hash(),
                        *cfg,
                        p,
                        auth,
                        draws,
                        i as nat,
                    ));
                }
            }
        }
        i = i + 1;
    }
    (claim, constraints)
}

/// The final sumcheck and the closing identity. 1 iff the identity holds.
#[verifier::rlimit(40)]
fn close<T: CircuitTrait>(
    b: &mut T,
    cfg: &Config,
    d: &Data,
    inputs: &Inputs,
    t: &TranscriptWires,
    claim: Elem,
    first: &ConstraintWires,
    constraints: &Vec<ConstraintWires>,
    profile: &mut Profile,
    Ghost(base): Ghost<Netlist>,
    Ghost(given): Ghost<Seq<Vec<Elem>>>,
) -> (check: usize)
    requires
        old(b).inv(),
        old(profile).wf(old(b)@),
        netlist::ext(base, old(b)@),
        inputs.wf(*cfg, *d, base.next),
        t.wf(*cfg, *d, base.next),
        measured(*cfg, *d, sizes(given)),
        elem_ok(claim@, old(b)@.next),
        first.wf(old(b)@.next),
        first.arity == cfg.num_variables,
        constraints@.len() == d.rounds@.len(),
        constraints_ok(*cfg, *t, base, old(b)@, constraints@),
        forall|env: Env| #[trigger]
            first.model(old(b)@, env) == protocol::initial_constraint(
                *cfg,
                inputs.messages(base, env, d.messages()),
                t.draws(base, env),
                grids(base, env, given),
            ),
        forall|env: Env| #[trigger]
            netlist::bits(old(b)@, env, claim@) == protocol::claim_after(
                *cfg,
                inputs.messages(base, env, d.messages()),
                t.draws(base, env),
                d.rounds@.len(),
            ),
    ensures
        final(b).inv(),
        netlist::ext(old(b)@, final(b)@),
        final(profile).wf(final(b)@),
        check < final(b)@.next,
        forall|env: Env| #[trigger]
            netlist::value(final(b)@, env, check as int) == protocol::closes(
                *cfg,
                inputs.messages(base, env, d.messages()),
                t.draws(base, env),
                grids(base, env, given),
            ),
{
    let ghost data = d.messages();
    let ghost c4 = b@;
    let ghost claim3 = claim@;
    let ghost p = |env: Env| inputs.messages(base, env, data);
    let ghost draws = |env: Env| t.draws(base, env);
    proof {
        wire_inputs::lemma_sumcheck_ok(
            inputs.final_sumcheck@,
            cfg.final_folding_pow_bits > 0,
            base.next,
            c4.next,
        );
    }
    let claimed = wire_closing::sumcheck_claim(
        b,
        claim,
        inputs.final_sumcheck.as_slice(),
        t.final_folding.as_slice(),
        Ghost(cfg.final_folding_pow_bits > 0),
        Ghost(data.final_sumcheck),
    );
    let ghost c5 = b@;
    profile.mark(b, Phase::SumcheckRounds);
    proof {
        wire_transcript::lemma_transcript_wires_ext(*t, *cfg, *d, base, c5);
        wire_closing::lemma_constraint_ext(*first, c4, c5);
        lemma_constraints_ok(*cfg, *t, base, c4, c5, constraints@);
    }
    let rev = wire_closing::randomness(b, d, t, Ghost(*cfg));
    let ghost weights = |env: Env, k: nat|
        protocol::weights(
            *cfg,
            p(env),
            draws(env),
            grids(base, env, given),
            protocol::all_randomness(draws(env)),
            k,
        );
    proof {
        assert forall|env: Env| true implies #[trigger] netlist::words(c5, env, rev@)
            == protocol::all_randomness(draws(env)) by {
            assert(t.draws(c5, env) == t.draws(base, env));
        }
        assert forall|env: Env| #[trigger] weights(env, 0) == field::plus(
            field::zero128(),
            protocol::constraint_weight(
                first.model(c5, env),
                netlist::words(c5, env, rev@),
            ),
        ) by {
            assert(first.model(c5, env) == first.model(c4, env));
        }
        assert forall|env: Env, k: nat| 0 < k <= constraints@.len() implies #[trigger] weights(
            env,
            k,
        ) == field::plus(
            weights(env, (k - 1) as nat),
            protocol::constraint_weight(
                constraints@[k - 1].model(c5, env),
                netlist::words(c5, env, rev@),
            ),
        ) by {
            assert(constraints@[k - 1].model(c5, env) == protocol::round_constraint(
                *cfg,
                draws(env),
                k - 1,
            ));
        }
    }
    let total = wire_closing::total_weight(
        b,
        first,
        constraints,
        rev.as_slice(),
        profile,
        Ghost(weights),
    );
    let ghost c6 = b@;
    let final_rev = wires::reversed(t.final_folding.as_slice());
    let final_value = wire_arith::eval_multilinear(
        b,
        inputs.final_poly.as_slice(),
        final_rev.as_slice(),
    );
    let ghost c7 = b@;
    let expected = crate::whir_gc::wires::mul(b, &total, &final_value);
    let ghost c8 = b@;
    let check = wires::equal(b, claimed.as_slice(), expected.as_slice());
    profile.mark(b, Phase::ClosingIdentity);
    proof {
        assert forall|env: Env| #[trigger]
            netlist::value(b@, env, check as int) == protocol::closes(
                *cfg,
                p(env),
                draws(env),
                grids(base, env, given),
            ) by {
            let pe = p(env);
            let de = draws(env);
            let ge = grids(base, env, given);
            wire_inputs::lemma_sumcheck_ext(
                base,
                c4,
                env,
                inputs.final_sumcheck@,
                cfg.final_folding_pow_bits > 0,
                data.final_sumcheck,
            );
            assert(netlist::words(c4, env, t.final_folding@) == de.final_folding);
            assert(netlist::bits(c5, env, claimed@) == protocol::final_claim(*cfg, pe, de));
            assert(netlist::bits(c8, env, claimed@) == netlist::bits(c5, env, claimed@));
            assert(netlist::bits(c6, env, total@) == protocol::final_weight(*cfg, pe, de, ge));
            assert(netlist::bits(c7, env, total@) == netlist::bits(c6, env, total@));
            assert(netlist::words(c6, env, inputs.final_poly@) == pe.final_poly);
            assert(netlist::words(c6, env, t.final_folding@) == de.final_folding);
            assert(netlist::words(c6, env, final_rev@) == protocol::reversed(de.final_folding));
            assert(netlist::bits(c7, env, final_value@) == protocol::final_value(pe, de));
        }
    }
    check
}

/// The arithmetic after the transcript, ending in the conjunction of every
/// check.
#[verifier::rlimit(60)]
fn conclude<T: CircuitTrait>(
    b: &mut T,
    cfg: &Config,
    d: &Data,
    inputs: &Inputs,
    t: &TranscriptWires,
    given: &Vec<Vec<Elem>>,
    checks: &mut Vec<usize>,
    profile: &mut Profile,
) -> (output: usize)
    requires
        old(b).inv(),
        old(profile).wf(old(b)@),
        inputs.wf(*cfg, *d, old(b)@.next),
        t.wf(*cfg, *d, old(b)@.next),
        grids_ok(given@, old(b)@.next),
        measured(*cfg, *d, sizes(given@)),
        netlist::below(old(checks)@, old(b)@.next),
    ensures
        final(b).inv(),
        netlist::ext(old(b)@, final(b)@),
        final(profile).wf(final(b)@),
        profile::charged(final(profile).phases@) == profile::non_free(final(b)@),
        output < final(b)@.next,
        forall|env: Env| #[trigger]
            netlist::value(final(b)@, env, output as int) == (hold(old(b)@, env, old(checks)@)
                && protocol::accepts(
                gadget_hash(),
                *cfg,
                inputs.messages(old(b)@, env, d.messages()),
                inputs.authentications(old(b)@, env),
                t.draws(old(b)@, env),
                grids(old(b)@, env, given@),
            )),
{
    let ghost base = b@;
    let ghost data = d.messages();
    let ghost checks0 = checks@;
    let ghost points = sizes(given@);
    append_checks(checks, &t.pow_checks);
    let ghost k0 = checks@;
    let (first, claim0) = start(b, cfg, d, inputs, t, given, profile);
    let ghost c1 = b@;
    let (claim, constraints) = walk_rounds(
        b,
        cfg,
        d,
        inputs,
        t,
        claim0,
        checks,
        profile,
        Ghost(base),
        Ghost(points),
    );
    let ghost c3 = b@;
    let ghost k3 = checks@;
    wire_closing::final_queries(
        b,
        cfg,
        d,
        inputs,
        t,
        checks,
        profile,
        Ghost(base),
        Ghost(points),
    );
    let ghost c4 = b@;
    let ghost k4 = checks@;
    proof {
        wire_closing::lemma_constraint_ext(first, c1, c4);
        lemma_constraints_ok(*cfg, *t, base, c3, c4, constraints@);
        assert forall|env: Env| true implies #[trigger] first.model(c4, env)
            == protocol::initial_constraint(
            *cfg,
            inputs.messages(base, env, data),
            t.draws(base, env),
            grids(base, env, given@),
        ) by {
            assert(first.model(c4, env) == first.model(c1, env));
        }
        assert forall|env: Env| true implies #[trigger] netlist::bits(c4, env, claim@)
            == protocol::claim_after(
            *cfg,
            inputs.messages(base, env, data),
            t.draws(base, env),
            d.rounds@.len(),
        ) by {
            assert(netlist::bits(c4, env, claim@) == netlist::bits(c3, env, claim@));
        }
    }
    let check = close(
        b,
        cfg,
        d,
        inputs,
        t,
        claim,
        &first,
        &constraints,
        profile,
        Ghost(base),
        Ghost(given@),
    );
    let ghost c9 = b@;
    checks.push(check);
    let output = wires::and_all(b, checks.as_slice());
    profile.mark(b, Phase::ClosingIdentity);
    proof {
        assert forall|env: Env| #[trigger]
            netlist::value(b@, env, output as int) == (hold(base, env, checks0)
                && protocol::accepts(
                gadget_hash(),
                *cfg,
                inputs.messages(base, env, data),
                inputs.authentications(base, env),
                t.draws(base, env),
                grids(base, env, given@),
            )) by {
            let pe = inputs.messages(base, env, data);
            let de = t.draws(base, env);
            let ae = inputs.authentications(base, env);
            let ge = grids(base, env, given@);
            let n = d.rounds@.len();
            lemma_hold_concat(base, env, checks0, t.pow_checks@);
            assert(hold(base, env, k0) == (hold(base, env, checks0) && de.pow_ok));
            assert(netlist::bits(c1, env, k0) == netlist::bits(base, env, k0));
            assert(hold(c3, env, k3) == (hold(c1, env, k0) && rounds_up_to(
                *cfg,
                pe,
                ae,
                de,
                n,
            )));
            assert(hold(c4, env, k4) == (hold(c3, env, k3) && protocol::round_authentic(
                gadget_hash(),
                *cfg,
                pe,
                ae,
                de,
                n,
            ) && wire_closing::finals_up_to(pe, de, t.final_queries@.len() as int)));
            assert(netlist::bits(c9, env, k4) == netlist::bits(c4, env, k4));
            wire_transcript::lemma_hold_push(c9, env, k4, check);
            assert(netlist::value(c9, env, check as int) == protocol::closes(*cfg, pe, de, ge));
            assert(netlist::value(b@, env, output as int) == hold(c9, env, checks@));
            assert(pe.rounds.len() == n);
            lemma_rounds_and_end(*cfg, pe, ae, de);
            assert(de.final_queries.len() == t.final_queries@.len());
        }
    }
    output
}

/// All the openings are the rounds' and the final one.
proof fn lemma_rounds_and_end(
    cfg: Config,
    p: ProofM,
    auth: Seq<protocol::Auth>,
    draws: protocol::Draws,
)
    ensures
        (forall|i: nat|
            i <= p.rounds.len() ==> #[trigger] protocol::round_authentic(
                gadget_hash(),
                cfg,
                p,
                auth,
                draws,
                i,
            )) == (rounds_up_to(cfg, p, auth, draws, p.rounds.len()) && protocol::round_authentic(
            gadget_hash(),
            cfg,
            p,
            auth,
            draws,
            p.rounds.len(),
        )),
{
}

/// Build with a layer in front of the opening; `ch` must be the run of the
/// plain verifier with the same layer.
#[verifier::rlimit(80)]
pub fn build_with_prefix<T: ValuedBuilder, P: Prefix>(
    b: &mut T,
    cfg: &Config,
    d: &Data,
    ch: &Challenges,
    prefix: P,
) -> (shape: Shape)
    requires
        old(b).inv(),
        prefix.ready(old(b)@.next),
        measured(*cfg, *d, prefix.point_sizes()),
        fits(*cfg, *d, prefix.point_sizes(), prefix.value_sizes()),
        expandable(*cfg, *d, *ch),
    ensures
        final(b).inv(),
        netlist::ext(old(b)@, final(b)@),
        exists|inputs: Inputs| #[trigger]
            realizes(
                *cfg,
                *d,
                *ch,
                prefix,
                old(b)@,
                final(b)@,
                shape.output,
                shape.flushes,
                shape.witness@,
                inputs,
            ),
        profile::charged(shape.profile.phases@) == profile::non_free(final(b)@),
{
    let ghost base = b@;
    let ghost data = d.messages();
    let ghost layer = prefix;
    let mut profile = Profile::default();
    let inputs = Inputs::allocate(b, cfg, d, ch);
    let ghost b1 = b@;
    let mut checks: Vec<usize> = Vec::new();
    let mut s = Sponge::new();
    s.observe_const(b, d.seed_commitment.as_slice());
    let ghost s1 = s;
    s.observe(inputs.root.as_slice());
    let ghost s2 = s;
    proof {
        let some: Env = |i: int| false;
        layer.lemma_outcome(base, b1, some, protocol::empty_buffers());
        assert(s2.wf(b1.next));
        assert(profile.wf(b1));
    }
    let out = prefix.run(b, &mut s, &mut checks, &mut profile);
    let ghost b3 = b@;
    let ghost s3 = s;
    let ghost k3 = checks@;
    proof {
        wire_inputs::lemma_inputs_ok(inputs, *cfg, *d, b1.next, b3.next);
        assert forall|i: int|
            0 <= i < inputs.openings@.len() && i < out.values@.len() implies (
        #[trigger] inputs.openings@[i])@.len() == out.values@[i]@.len() by {
            assert(sizes(out.values@)[i] == out.values@[i]@.len());
            assert(layer.value_sizes()[i] == d.openings@[i]@.len());
        }
    }
    match_values(b, &inputs.openings, &out.values, &mut checks);
    let ghost b4 = b@;
    let ghost k4 = checks@;
    proof {
        wire_inputs::lemma_inputs_ok(inputs, *cfg, *d, b1.next, b4.next);
    }
    let t = wire_transcript::transcript(b, &mut s, &inputs, cfg, d);
    let ghost b5 = b@;
    let flushes = s.flushes();
    profile.mark(b, Phase::Transcript);
    proof {
        wire_inputs::lemma_inputs_ok(inputs, *cfg, *d, b1.next, b5.next);
        wire_inputs::lemma_grids_ok(out.points@, b3.next, b5.next);
    }
    let output = conclude(b, cfg, d, &inputs, &t, &out.points, &mut checks, &mut profile);
    let ghost whole = inputs;
    let shape = Shape { output, flushes, witness: inputs.witness, profile };
    proof {
        let c = b@;
        wire_inputs::lemma_inputs_ok(whole, *cfg, *d, b1.next, c.next);
        assert forall|env: Env| true implies {
            let p = whole.messages(c, env, data);
            let h = layer.outcome(c, env, committed(p));
            &&& #[trigger] netlist::value(c, env, shape.output as int) == accepted(
                *cfg,
                p,
                whole.authentications(c, env),
                h,
            )
            &&& flushes_at(*cfg, p, layer, c, env) == shape.flushes
            &&& p == whole.messages(b1, env, data)
            &&& whole.authentications(c, env) == whole.authentications(b1, env)
        } by {
            wire_inputs::lemma_inputs_ext(b1, c, env, whole, *cfg, *d, data);
            wire_inputs::lemma_inputs_ext(b1, b4, env, whole, *cfg, *d, data);
            wire_inputs::lemma_inputs_ext(b1, b5, env, whole, *cfg, *d, data);
            let p = whole.messages(b1, env, data);
            let m = gadget_machine();
            assert(s1.st(b1, env) == protocol::absorb_all(
                m,
                protocol::empty_buffers(),
                p.seed_commitment,
            ));
            assert(s2.st(b1, env) == protocol::absorb_all(m, s1.st(b1, env), p.cap));
            assert(s2.st(b1, env) == committed(p));
            layer.lemma_outcome(b1, c, env, committed(p));
            let h = layer.outcome(b1, env, committed(p));
            assert(s3.st(b3, env) == h.st);
            assert(grids(b3, env, out.points@) == h.points);
            assert(grids(b3, env, out.values@) == h.values);
            let none: Seq<usize> = Seq::empty();
            assert(hold(b3, env, k3) == h.ok);
            wire_inputs::lemma_grids_ext(b1, b3, env, whole.openings@);
            assert(hold(b4, env, k4) == (h.ok && values_match(p.openings, h.values)));
            assert(s3.st(b4, env) == h.st);
            let (fin, draws) = protocol::transcript(m, h.st, *cfg, p);
            assert(s.st(b5, env) == fin);
            assert(t.draws(b5, env) == draws);
            assert(netlist::bits(b5, env, k4) == netlist::bits(b4, env, k4));
            wire_inputs::lemma_grids_ext(b3, b5, env, out.points@);
        }
        assert forall|env: Env|
            carried(env, base.next, shape.witness@) implies #[trigger] whole.messages(
            c,
            env,
            data,
        ) == data by {
            assert(netlist::value(c, env, shape.output as int) == accepted(
                *cfg,
                whole.messages(c, env, data),
                whole.authentications(c, env),
                layer.outcome(c, env, committed(whole.messages(c, env, data))),
            ));
            assert(whole.messages(b1, env, data) == data);
        }
        assert forall|env: Env|
            carried(env, base.next, shape.witness@) implies #[trigger] whole.authentications(
            c,
            env,
        ) == reference::authentications(*cfg, *d, *ch) by {
            assert(netlist::value(c, env, shape.output as int) == accepted(
                *cfg,
                whole.messages(c, env, data),
                whole.authentications(c, env),
                layer.outcome(c, env, committed(whole.messages(c, env, data))),
            ));
            assert(whole.authentications(b1, env) == reference::authentications(*cfg, *d, *ch));
        }
        assert forall|env: Env| #[trigger]
            flushes_at(*cfg, whole.messages(c, env, data), layer, c, env) == shape.flushes by {
            assert(netlist::value(c, env, shape.output as int) == accepted(
                *cfg,
                whole.messages(c, env, data),
                whole.authentications(c, env),
                layer.outcome(c, env, committed(whole.messages(c, env, data))),
            ));
        }
        let laid = wire_layout::shape_of(*cfg, *d);
        assert forall|env: Env| #[trigger]
            whole.messages(c, env, data) == wire_layout::messages(
                env,
                base.next as int,
                laid,
                data,
            ) by {
            wire_inputs::lemma_inputs_ext(b1, c, env, whole, *cfg, *d, data);
            assert(whole.messages(b1, env, data) == wire_layout::messages(
                env,
                base.next as int,
                laid,
                data,
            ));
        }
        assert forall|env: Env| #[trigger]
            whole.authentications(c, env) == wire_layout::authentications(
                env,
                base.next as int,
                laid,
            ) by {
            wire_inputs::lemma_inputs_ext(b1, c, env, whole, *cfg, *d, data);
            assert(whole.authentications(b1, env) == wire_layout::authentications(
                env,
                base.next as int,
                laid,
            ));
        }
        assert forall|i: int| 0 <= i < shape.witness@.len() implies netlist::says(
            c,
            base.next + i,
            #[trigger] shape.witness@[i],
        ) by {
            assert(netlist::says(b1, base.next + i, shape.witness@[i]));
            netlist::lemma_ext_told(b1, c, base.next + i);
        }
        assert(realizes(
            *cfg,
            *d,
            *ch,
            layer,
            base,
            c,
            shape.output,
            shape.flushes,
            shape.witness@,
            whole,
        ));
    }
    shape
}

/// Every pruned opening can be expanded at the queries that the transcript
/// draws.
pub open spec fn transcript_expandable(cfg: Config, d: Data) -> bool {
    forall|ch: Challenges|
        ch.draws() == reference::transcript_draws(cfg, d) && reference::challenges_shaped(
            cfg,
            d,
            ch,
        ) ==> #[trigger] expandable(cfg, d, ch)
}

proof fn lemma_round_counts<St>(
    m: protocol::Machine<St>,
    st: St,
    cfgs: Seq<reference::RoundConfig>,
    rounds: Seq<protocol::RoundM>,
    i: int,
)
    requires
        0 <= i < rounds.len(),
    ensures
        protocol::rounds_draws(m, st, cfgs, rounds).1.len() == rounds.len(),
        protocol::rounds_draws(m, st, cfgs, rounds).1[i].queries.len() == protocol::query_count(
            cfgs[i].index_width as nat,
            cfgs[i].num_queries as nat,
        ),
    decreases rounds.len(),
{
    let k = rounds.len() - 1;
    let (s, earlier, ok) = protocol::rounds_draws(m, st, cfgs, rounds.drop_last());
    if k > 0 {
        lemma_round_counts(
            m,
            st,
            cfgs,
            rounds.drop_last(),
            if i < k {
                i
            } else {
                0
            },
        );
    } else {
        assert(earlier.len() == 0);
    }
    let rd = rounds.last();
    let rc = cfgs[k];
    let s0 = protocol::absorb_all(m, s, rd.cap);
    let (s1, ood_points) = protocol::ood_draws(m, s0, rd.ood_answers);
    let (s2, ground) = protocol::check_witness(m, s1, rc.pow_bits as nat, rd.pow_witness);
    protocol::law_query_count(m, s2, rc.index_width as nat, rc.num_queries as nat);
}

/// One query per row that the configuration asks for.
proof fn lemma_drawn_counts(cfg: Config, d: Data, ch: Challenges, i: nat)
    requires
        d.rounds@.len() == cfg.rounds@.len(),
        ch.rounds@.len() == cfg.rounds@.len(),
        ch.draws() == reference::transcript_draws(cfg, d),
        i <= d.rounds@.len(),
    ensures
        reference::queries_at(ch, i).len() == wire_closing::queries_asked(cfg, i),
{
    let m = protocol::hash_machine(reference::blake3());
    let p = d.messages();
    let st = protocol::absorb_commitment(m, protocol::empty_buffers(), p);
    let (s1, o) = protocol::virtual_draws(m, st, p.initial_ood_answers, p.seed_virtual);
    let (s2, op) = protocol::claim_draws(m, s1, p.openings, p.seed_claim, cfg.given_points);
    let (s3, alpha) = protocol::draw_elt(m, protocol::absorb_all(m, s2, p.seed_whir_batching));
    let s4 = protocol::absorb_all(m, s3, p.seed_initial_sumcheck);
    let (s5, f, ok1) = protocol::sumcheck_draws(
        m,
        s4,
        p.initial_sumcheck,
        cfg.initial_folding_pow_bits as nat,
    );
    let (s6, rounds, ok2) = protocol::rounds_draws(m, s5, cfg.rounds@, p.rounds);
    let draws = ch.draws();
    assert(draws.rounds == rounds);
    if i < d.rounds@.len() {
        lemma_round_counts(m, s5, cfg.rounds@, p.rounds, i as int);
        assert(draws.rounds[i as int] == ch.rounds@[i as int].draws());
        assert(reference::nats(ch.rounds@[i as int].queries@).len()
            == ch.rounds@[i as int].queries@.len());
    } else {
        let t0 = protocol::absorb_elts(m, s6, p.final_poly);
        let (t1, ground) = protocol::check_witness(
            m,
            t0,
            cfg.final_pow_bits as nat,
            p.final_pow_witness,
        );
        protocol::law_query_count(
            m,
            t1,
            cfg.final_index_width as nat,
            cfg.final_queries as nat,
        );
        assert(draws.final_queries == protocol::final_draws(m, s6, cfg, p).1);
        assert(reference::nats(ch.final_queries@).len() == ch.final_queries@.len());
    }
}

/// A shaped proof whose openings expand has the sizes that the circuit needs.
proof fn lemma_measured(cfg: Config, d: Data, ch: Challenges)
    requires
        !cfg.given_points,
        reference::shaped(cfg, d, Seq::empty()),
        expandable(cfg, d, ch),
        ch.draws() == reference::transcript_draws(cfg, d),
    ensures
        measured(cfg, d, Seq::empty()),
{
    assert forall|i: nat| i <= d.rounds@.len() implies (#[trigger] reference::opening_at(
        d,
        i,
    )).rows@.len() == wire_closing::queries_asked(cfg, i) by {
        assert(reference::round_well_formed(cfg, d, ch, i));
        lemma_drawn_counts(cfg, d, ch, i);
    }
}

/// Build the verifier circuit for `cfg` on any backend, with the values `d`
/// puts on its inputs.
pub fn build_with<T: ValuedBuilder>(b: &mut T, cfg: &Config, d: &Data) -> (shape: Shape)
    requires
        old(b).inv(),
        !cfg.given_points,
        reference::shaped(*cfg, *d, Seq::empty()),
        transcript_expandable(*cfg, *d),
    ensures
        final(b).inv(),
        netlist::ext(old(b)@, final(b)@),
        exists|ch: Challenges, inputs: Inputs|
            ch.draws() == reference::transcript_draws(*cfg, *d) && #[trigger] realizes(
                *cfg,
                *d,
                ch,
                NoPrefix,
                old(b)@,
                final(b)@,
                shape.output,
                shape.flushes,
                shape.witness@,
                inputs,
            ),
        profile::charged(shape.profile.phases@) == profile::non_free(final(b)@),
{
    // The plain run, for the query indices the expanded paths need.
    let mut s = reference::Challenger::new();
    let ch = reference::transcript(cfg, d, &mut s);
    proof {
        assert(expandable(*cfg, *d, ch));
        lemma_measured(*cfg, *d, ch);
    }
    build_with_prefix(b, cfg, d, &ch, NoPrefix)
}

/// The circuit, its witness for the proof it was built from, and its size.
pub struct Built {
    pub circuit: CircuitAdapter,
    pub witness: Vec<bool>,
    pub output: usize,
    pub counts: GateCounts,
    pub flushes: usize,
}

/// The circuit with nothing in it but the constants.
pub open spec fn blank() -> Netlist {
    Netlist { next: 2, inputs: 0, gates: Seq::empty(), told: Map::empty() }
}

/// `r` is the verifier circuit for `cfg`, with `d`'s witness and its size.
pub open spec fn built(cfg: Config, d: Data, r: Built) -> bool {
    &&& r.circuit.inv()
    &&& r.counts.direct_and == netlist::ands(r.circuit@.gates)
    &&& r.counts.direct_xor == netlist::xors(r.circuit@.gates)
    &&& r.counts.direct_or == netlist::ors(r.circuit@.gates)
    &&& exists|ch: Challenges, inputs: Inputs|
        ch.draws() == reference::transcript_draws(cfg, d) && #[trigger] realizes(
            cfg,
            d,
            ch,
            NoPrefix,
            blank(),
            r.circuit@,
            r.output,
            r.flushes,
            r.witness@,
            inputs,
        )
}

/// Build the verifier circuit for `cfg`, keeping the gates.
pub fn build(cfg: &Config, d: &Data) -> (r: Built)
    requires
        !cfg.given_points,
        reference::shaped(*cfg, *d, Seq::empty()),
        transcript_expandable(*cfg, *d),
    ensures
        built(*cfg, *d, r),
{
    let mut b = CircuitAdapter::default();
    assert(b@ == blank());
    let shape = build_with(&mut b, cfg, d);
    let ghost c = b@;
    let counts = b.gate_counts();
    let ghost drawn = choose|ch: Challenges, inputs: Inputs|
        ch.draws() == reference::transcript_draws(*cfg, *d) && #[trigger] realizes(
            *cfg,
            *d,
            ch,
            NoPrefix,
            blank(),
            c,
            shape.output,
            shape.flushes,
            shape.witness@,
            inputs,
        );
    let r = Built {
        circuit: b,
        witness: shape.witness,
        output: shape.output,
        counts,
        flushes: shape.flushes,
    };
    proof {
        assert(realizes(
            *cfg,
            *d,
            drawn.0,
            NoPrefix,
            blank(),
            r.circuit@,
            r.output,
            r.flushes,
            r.witness@,
            drawn.1,
        ));
    }
    r
}

/// Whether an opening can be expanded.
fn opening_expands(
    o: &reference::Opening,
    cap: &[u8],
    indices: &[usize],
    index_width: usize,
) -> (r: bool)
    requires
        reference::whole_cap(cap@) ==> protocol::cap_shaped(cap@, index_width as nat),
    ensures
        r == reference::opening_well_formed(*o, cap@, indices@, index_width as nat),
{
    if cap.len() == 0 || cap.len() % 32 != 0 {
        return false;
    }
    let height = reference::floor_log2(cap.len() / 32);
    let mut leaves: Vec<pruned::Digest> = Vec::new();
    while leaves.len() < o.rows.len()
        invariant
            leaves@.len() <= o.rows@.len(),
        decreases o.rows@.len() - leaves@.len(),
    {
        let k = leaves.len();
        leaves.push(reference::leaf(o.rows[k].as_slice()));
    }
    let r = pruned::expand(
        o.boundaries.as_slice(),
        indices,
        leaves.as_slice(),
        index_width,
        height,
    );
    match r {
        Ok(_) => true,
        Err(_) => false,
    }
}

/// Whether every opening can be expanded.
fn openings_expand(cfg: &Config, d: &Data, ch: &Challenges) -> (r: bool)
    requires
        reference::shaped(*cfg, *d, Seq::empty()),
        reference::challenges_shaped(*cfg, *d, *ch),
    ensures
        r == expandable(*cfg, *d, *ch),
{
    let n = d.rounds.len();
    let ghost data = d.messages();
    let mut i: usize = 0;
    while i < n
        invariant
            n == d.rounds@.len(),
            i <= n,
            data == d.messages(),
            reference::shaped(*cfg, *d, Seq::empty()),
            reference::challenges_shaped(*cfg, *d, *ch),
            forall|j: nat|
                j < i ==> #[trigger] reference::round_well_formed(*cfg, *d, *ch, j),
        decreases n - i,
    {
        let cap = if i == 0 {
            d.cap.as_slice()
        } else {
            d.rounds[i - 1].cap.as_slice()
        };
        assert(cap@ == protocol::cap_before(data, i as nat));
        let ok = opening_expands(
            &d.rounds[i].opening,
            cap,
            ch.rounds[i].queries.as_slice(),
            cfg.rounds[i].index_width,
        );
        assert(ok == reference::round_well_formed(*cfg, *d, *ch, i as nat));
        if !ok {
            return false;
        }
        i = i + 1;
    }
    let cap = if n == 0 {
        d.cap.as_slice()
    } else {
        d.rounds[n - 1].cap.as_slice()
    };
    assert(cap@ == protocol::cap_before(data, n as nat));
    let ok = opening_expands(
        &d.final_opening,
        cap,
        ch.final_queries.as_slice(),
        cfg.final_index_width,
    );
    assert(ok == reference::round_well_formed(*cfg, *d, *ch, n as nat));
    proof {
        if ok {
            assert forall|j: nat| j <= n implies protocol::cap_shaped(
                #[trigger] protocol::cap_before(data, j),
                protocol::width_of(*cfg, j),
            ) by {
                assert(reference::round_well_formed(*cfg, *d, *ch, j));
            }
        }
    }
    ok
}

/// Expanding depends on what was drawn only.
proof fn lemma_expandable_drawn(cfg: Config, d: Data, a: Challenges, b: Challenges)
    requires
        a.draws() == b.draws(),
        expandable(cfg, d, a),
    ensures
        expandable(cfg, d, b),
{
    assert(a.draws().rounds.len() == a.rounds@.len());
    assert(b.draws().rounds.len() == b.rounds@.len());
    assert forall|i: nat| i <= d.rounds@.len() implies #[trigger] reference::round_well_formed(
        cfg,
        d,
        b,
        i,
    ) by {
        assert(reference::round_well_formed(cfg, d, a, i));
        let x = reference::queries_at(a, i);
        let y = reference::queries_at(b, i);
        assert(reference::nats(x) == reference::nats(y)) by {
            if i < d.rounds@.len() {
                assert(a.draws().rounds[i as int].queries == b.draws().rounds[i as int].queries);
            } else {
                assert(a.draws().final_queries == b.draws().final_queries);
            }
        }
        assert(x =~= y) by {
            assert(reference::nats(x).len() == x.len());
            assert(reference::nats(y).len() == y.len());
            assert forall|q: int| 0 <= q < x.len() implies x[q] == y[q] by {
                assert(reference::nats(x)[q] == reference::nats(y)[q]);
            }
        }
    }
}

/// Build the verifier circuit where the proof's openings can be expanded.
pub fn checked_build(cfg: &Config, d: &Data) -> (r: Option<Built>)
    requires
        !cfg.given_points,
        reference::shaped(*cfg, *d, Seq::empty()),
    ensures
        match r {
            Some(c) => transcript_expandable(*cfg, *d) && built(*cfg, *d, c),
            None => !transcript_expandable(*cfg, *d),
        },
{
    let mut s = reference::Challenger::new();
    let ch = reference::transcript(cfg, d, &mut s);
    if openings_expand(cfg, d, &ch) {
        proof {
            assert forall|other: Challenges|
                other.draws() == reference::transcript_draws(*cfg, *d)
                    && reference::challenges_shaped(*cfg, *d, other) implies #[trigger] expandable(
                *cfg,
                *d,
                other,
            ) by {
                lemma_expandable_drawn(*cfg, *d, ch, other);
            }
        }
        Some(build(cfg, d))
    } else {
        None
    }
}

// ---------------------------------------------------------------------------
// The circuit and the plain verifier.
// ---------------------------------------------------------------------------

/// The plain verifier succeeds exactly where the proof is accepted with the
/// rows and paths that the circuit opens.
pub proof fn lemma_verdict(
    cfg: Config,
    d: Data,
    ch: Challenges,
    given: Seq<Seq<Elt>>,
    r: Result<reference::Verified, reference::Error>,
)
    requires
        expandable(cfg, d, ch),
        reference::verdict(cfg, d, ch, given, r),
    ensures
        protocol::accepts(
            reference::blake3(),
            cfg,
            d.messages(),
            reference::authentications(cfg, d, ch),
            ch.draws(),
            given,
        ) == (r is Ok),
{
    let h = reference::blake3();
    let p = d.messages();
    let draws = ch.draws();
    let auth = reference::authentications(cfg, d, ch);
    match r {
        Ok(v) => {},
        Err(reference::Error::Pow) => {},
        Err(reference::Error::Opening { round }) => {
            assert(reference::round_well_formed(cfg, d, ch, round as nat));
        },
        Err(reference::Error::Merkle { round, query }) => {
            assert(!protocol::query_authentic(
                h,
                auth[round as int].rows,
                auth[round as int].paths,
                protocol::cap_before(p, round as nat),
                protocol::queries_of(draws, round as nat),
                protocol::width_of(cfg, round as nat),
                query as int,
            ));
            assert(!protocol::round_authentic(h, cfg, p, auth, draws, round as nat));
        },
        Err(reference::Error::FinalStir { query }) => {
            assert(!protocol::final_query_ok(p, draws, query as int));
        },
        Err(reference::Error::Closing { claimed, expected }) => {
            if protocol::closes(cfg, p, draws, given) {
                field::lemma_bits_injective(claimed, expected);
            }
        },
    }
}

/// On a proof's own witness the circuit says what the plain verifier says: its
/// output is 1 exactly where the verifier accepts. The circuit hashes with the
/// Blake3 gadget, the verifier with Blake3; that the gadget's hash is the one that
/// `hash::digest` names is a hypothesis here.
pub proof fn law_circuit_agrees(
    cfg: Config,
    d: Data,
    ch: Challenges,
    r: Result<reference::Verified, reference::Error>,
    base: Netlist,
    c: Netlist,
    output: usize,
    flushes: usize,
    witness: Seq<bool>,
    inputs: Inputs,
    env: Env,
)
    requires
        realizes(cfg, d, ch, NoPrefix, base, c, output, flushes, witness, inputs),
        expandable(cfg, d, ch),
        ch.draws() == reference::transcript_draws(cfg, d),
        reference::verdict(cfg, d, ch, Seq::empty(), r),
        carried(env, base.next, witness),
        forall|m: Seq<u8>| #[trigger] gadget_hash()(m) == reference::blake3()(m),
    ensures
        netlist::value(c, env, output as int) == (r is Ok),
{
    assert(gadget_hash() =~= reference::blake3());
    lemma_verdict(cfg, d, ch, Seq::empty(), r);
    assert(inputs.messages(c, env, d.messages()) == d.messages());
    assert(inputs.authentications(c, env) == reference::authentications(cfg, d, ch));
}

/// A circuit built from one proof, on the witness of another of its shape: it
/// sees the other proof.
pub proof fn lemma_serves<P: Prefix, Q: Prefix>(
    cfg: Config,
    built_from: Data,
    built_with: Challenges,
    prefix: P,
    base: Netlist,
    c: Netlist,
    output: usize,
    flushes: usize,
    placeholder: Seq<bool>,
    inputs: Inputs,
    d: Data,
    ch: Challenges,
    other: Q,
    base2: Netlist,
    c2: Netlist,
    output2: usize,
    flushes2: usize,
    witness: Seq<bool>,
    inputs2: Inputs,
    env: Env,
)
    requires
        realizes(
            cfg,
            built_from,
            built_with,
            prefix,
            base,
            c,
            output,
            flushes,
            placeholder,
            inputs,
        ),
        realizes(cfg, d, ch, other, base2, c2, output2, flushes2, witness, inputs2),
        base2.next == base.next,
        wire_layout::shape_of(cfg, d) == wire_layout::shape_of(cfg, built_from),
        wire_layout::alike(
            wire_layout::shape_of(cfg, d),
            built_from.messages(),
            d.messages(),
        ),
        carried(env, base.next, witness),
    ensures
        placeholder.len() == witness.len(),
        netlist::value(c, env, output as int) == accepted(
            cfg,
            d.messages(),
            reference::authentications(cfg, d, ch),
            prefix.outcome(c, env, committed(d.messages())),
        ),
{
    let shape = wire_layout::shape_of(cfg, d);
    wire_layout::lemma_alike(
        env,
        base.next as int,
        shape,
        built_from.messages(),
        d.messages(),
    );
    assert(inputs2.messages(c2, env, d.messages()) == d.messages());
    assert(inputs2.authentications(c2, env) == reference::authentications(cfg, d, ch));
    assert(inputs.messages(c, env, built_from.messages()) == d.messages());
    assert(inputs.authentications(c, env) == reference::authentications(cfg, d, ch));
}

/// Two circuits of one shape, whatever proofs they were built from and whatever
/// challenges those drew, compute one function of their input wires: for every
/// assignment the outputs agree, and the transcripts hash as often.
pub proof fn law_one_shape_one_function(
    cfg: Config,
    d: Data,
    ch: Challenges,
    base: Netlist,
    c: Netlist,
    output: usize,
    flushes: usize,
    witness: Seq<bool>,
    inputs: Inputs,
    d2: Data,
    ch2: Challenges,
    base2: Netlist,
    c2: Netlist,
    output2: usize,
    flushes2: usize,
    witness2: Seq<bool>,
    inputs2: Inputs,
    env: Env,
)
    requires
        realizes(cfg, d, ch, NoPrefix, base, c, output, flushes, witness, inputs),
        realizes(cfg, d2, ch2, NoPrefix, base2, c2, output2, flushes2, witness2, inputs2),
        base2.next == base.next,
        wire_layout::shape_of(cfg, d2) == wire_layout::shape_of(cfg, d),
        wire_layout::alike(wire_layout::shape_of(cfg, d), d.messages(), d2.messages()),
    ensures
        netlist::value(c, env, output as int) == netlist::value(c2, env, output2 as int),
        flushes == flushes2,
        witness.len() == witness2.len(),
{
    let shape = wire_layout::shape_of(cfg, d);
    wire_layout::lemma_alike(env, base.next as int, shape, d.messages(), d2.messages());
    let p = inputs.messages(c, env, d.messages());
    let p2 = inputs2.messages(c2, env, d2.messages());
    assert(p == p2);
    assert(inputs.authentications(c, env) == inputs2.authentications(c2, env));
    let o = NoPrefix.outcome(c, env, committed(p));
    assert(o == NoPrefix.outcome(c2, env, committed(p2)));
    assert(netlist::value(c2, env, output2 as int) == accepted(
        cfg,
        p2,
        inputs2.authentications(c2, env),
        o,
    ));
    assert(flushes_at(cfg, p, NoPrefix, c, env) == flushes);
    assert(flushes_at(cfg, p2, NoPrefix, c2, env) == flushes2);
}

/// One circuit serves every proof of its shape: built from any proof, or from a
/// placeholder, before the proof in question exists, it says on that proof's
/// witness what the plain verifier says of it. The witness is the one that
/// building for the proof lays out, on any backend.
pub proof fn law_circuit_serves_every_proof(
    cfg: Config,
    built_from: Data,
    built_with: Challenges,
    base: Netlist,
    c: Netlist,
    output: usize,
    flushes: usize,
    placeholder: Seq<bool>,
    inputs: Inputs,
    d: Data,
    ch: Challenges,
    r: Result<reference::Verified, reference::Error>,
    base2: Netlist,
    c2: Netlist,
    output2: usize,
    flushes2: usize,
    witness: Seq<bool>,
    inputs2: Inputs,
    env: Env,
)
    requires
        realizes(
            cfg,
            built_from,
            built_with,
            NoPrefix,
            base,
            c,
            output,
            flushes,
            placeholder,
            inputs,
        ),
        realizes(cfg, d, ch, NoPrefix, base2, c2, output2, flushes2, witness, inputs2),
        base2.next == base.next,
        wire_layout::shape_of(cfg, d) == wire_layout::shape_of(cfg, built_from),
        wire_layout::alike(
            wire_layout::shape_of(cfg, d),
            built_from.messages(),
            d.messages(),
        ),
        expandable(cfg, d, ch),
        ch.draws() == reference::transcript_draws(cfg, d),
        reference::verdict(cfg, d, ch, Seq::empty(), r),
        carried(env, base.next, witness),
        forall|m: Seq<u8>| #[trigger] gadget_hash()(m) == reference::blake3()(m),
    ensures
        netlist::value(c, env, output as int) == (r is Ok),
{
    assert(gadget_hash() =~= reference::blake3());
    lemma_verdict(cfg, d, ch, Seq::empty(), r);
    lemma_serves(
        cfg,
        built_from,
        built_with,
        NoPrefix,
        base,
        c,
        output,
        flushes,
        placeholder,
        inputs,
        d,
        ch,
        NoPrefix,
        base2,
        c2,
        output2,
        flushes2,
        witness,
        inputs2,
        env,
    );
}

/// Garbled before a proof exists and evaluated on the proof's witness, the
/// circuit yields the true label of its output exactly where the plain verifier
/// accepts the proof, and the false label elsewhere.
pub proof fn law_garbled_before_the_proof(
    cfg: Config,
    built_from: Data,
    built_with: Challenges,
    c: Netlist,
    g: Garbled,
    flushes: usize,
    placeholder: Seq<bool>,
    inputs: Inputs,
    d: Data,
    ch: Challenges,
    r: Result<reference::Verified, reference::Error>,
    c2: Netlist,
    output2: usize,
    flushes2: usize,
    witness: Seq<bool>,
    inputs2: Inputs,
)
    requires
        realizes(
            cfg,
            built_from,
            built_with,
            NoPrefix,
            blank(),
            c,
            g.output,
            flushes,
            placeholder,
            inputs,
        ),
        realizes(cfg, d, ch, NoPrefix, blank(), c2, output2, flushes2, witness, inputs2),
        wire_layout::shape_of(cfg, d) == wire_layout::shape_of(cfg, built_from),
        wire_layout::alike(
            wire_layout::shape_of(cfg, d),
            built_from.messages(),
            d.messages(),
        ),
        expandable(cfg, d, ch),
        ch.draws() == reference::transcript_draws(cfg, d),
        reference::verdict(cfg, d, ch, Seq::empty(), r),
        netlist::wf(c),
        garble::garbled_from(c, g),
        g.label0@.len() == 2 + placeholder.len(),
        forall|m: Seq<u8>| #[trigger] gadget_hash()(m) == reference::blake3()(m),
    ensures
        garble::held_labels(
            c.gates,
            garble::label_bytes(g.ciphertexts@),
            gates::witness_env(witness),
            garble::witness_labels(garble::label_bytes(g.label0@), g.delta@, witness),
        )(g.output as int) == garble::label_of(g.output0@, g.delta@, r is Ok),
{
    let env = gates::witness_env(witness);
    assert(carried(env, blank().next, witness));
    law_circuit_serves_every_proof(
        cfg,
        built_from,
        built_with,
        blank(),
        c,
        g.output,
        flushes,
        placeholder,
        inputs,
        d,
        ch,
        r,
        blank(),
        c2,
        output2,
        flushes2,
        witness,
        inputs2,
        env,
    );
    garble::law_label_follows_value(c, g, witness);
}

} // verus!

//! The proof on input wires: the whole proof, allocated before any gate, with
//! the bits that a real proof puts on the wires.
use super::bytes;
use super::field;
use super::field::{Elt, F};
use super::gates::{CircuitTrait, ValuedBuilder};
use super::netlist;
use super::netlist::{Env, Netlist};
use super::protocol;
use super::protocol::{Paths, ProofM, RoundM, SumcheckM};
use super::pruned;
use super::pruned::{Blake3Tree, Digest};
use super::reference;
use super::reference::{
    Challenges, Config, Data, Opening, RoundConfig, RoundData, SumcheckRoundData,
};
use super::tower;
use super::wire_layout;
use super::wire_sponge;
use super::wires;
use super::wires::{elem_ok, elems_ok, Elem};
use crate::merkle;
use crate::merkle::Compressor;
use vstd::prelude::*;

verus! {

broadcast use netlist::group_netlist;

/// One sumcheck message on wires.
pub struct SumcheckInputs {
    pub c0: Elem,
    pub c_inf: Elem,
    pub witness: Option<Elem>,
}

/// The opened rows with full sibling paths, on wires.
pub struct OpeningInputs {
    pub rows: Vec<Vec<Elem>>,
    /// Per query, one sibling digest per level, level 0 first.
    pub siblings: Vec<Vec<Vec<usize>>>,
}

/// One round's messages on wires.
pub struct RoundInputs {
    pub root: Vec<usize>,
    pub ood_answers: Vec<Elem>,
    pub pow_witness: Option<Elem>,
    pub sumcheck: Vec<SumcheckInputs>,
    pub opening: OpeningInputs,
}

/// The whole proof on wires.
pub struct Inputs {
    pub root: Vec<usize>,
    pub initial_ood_answers: Vec<Elem>,
    pub openings: Vec<Vec<Elem>>,
    pub initial_sumcheck: Vec<SumcheckInputs>,
    pub rounds: Vec<RoundInputs>,
    pub final_poly: Vec<Elem>,
    pub final_pow_witness: Option<Elem>,
    pub final_sumcheck: Vec<SumcheckInputs>,
    pub final_opening: OpeningInputs,
    /// The bits that the proof puts on the wires, in wire order.
    pub witness: Vec<bool>,
}

// ---------------------------------------------------------------------------
// Models.
// ---------------------------------------------------------------------------

/// The element on some wires, or `fallback` where there are none.
pub open spec fn optional(c: Netlist, env: Env, x: Option<Elem>, fallback: Elt) -> Elt {
    match x {
        Some(w) => netlist::bits(c, env, w@),
        None => fallback,
    }
}

pub open spec fn optional_ok(x: Option<Elem>, some: bool, n: nat) -> bool {
    match x {
        Some(w) => some && elem_ok(w@, n),
        None => !some,
    }
}

/// Lists of elements.
pub open spec fn grids(c: Netlist, env: Env, xs: Seq<Vec<Elem>>) -> Seq<Seq<Elt>> {
    Seq::new(xs.len(), |i: int| netlist::words(c, env, xs[i]@))
}

pub open spec fn grids_ok(xs: Seq<Vec<Elem>>, n: nat) -> bool {
    forall|i: int| 0 <= i < xs.len() ==> elems_ok(#[trigger] xs[i]@, n)
}

impl SumcheckInputs {
    pub open spec fn wf(self, grinds: bool, n: nat) -> bool {
        &&& elem_ok(self.c0@, n)
        &&& elem_ok(self.c_inf@, n)
        &&& optional_ok(self.witness, grinds, n)
    }

    pub open spec fn message(self, c: Netlist, env: Env, fallback: SumcheckM) -> SumcheckM {
        SumcheckM {
            c0: netlist::bits(c, env, self.c0@),
            c_inf: netlist::bits(c, env, self.c_inf@),
            witness: optional(c, env, self.witness, fallback.witness),
        }
    }
}

pub open spec fn sumcheck_ok(v: Seq<SumcheckInputs>, grinds: bool, n: nat) -> bool {
    forall|i: int| 0 <= i < v.len() ==> (#[trigger] v[i]).wf(grinds, n)
}

pub open spec fn sumcheck_messages(
    v: Seq<SumcheckInputs>,
    c: Netlist,
    env: Env,
    fallback: Seq<SumcheckM>,
) -> Seq<SumcheckM> {
    Seq::new(v.len(), |i: int| v[i].message(c, env, fallback[i]))
}

/// The digests on the wires of one path.
pub open spec fn path_bytes(c: Netlist, env: Env, path: Seq<Vec<usize>>) -> Seq<Seq<u8>> {
    Seq::new(path.len(), |l: int| wire_sponge::wire_bytes(c, env, path[l]@))
}

impl OpeningInputs {
    pub open spec fn rows_at(self, c: Netlist, env: Env) -> Seq<Seq<Elt>> {
        grids(c, env, self.rows@)
    }

    pub open spec fn paths_at(self, c: Netlist, env: Env) -> Paths {
        Seq::new(self.siblings@.len(), |q: int| path_bytes(c, env, self.siblings@[q]@))
    }

    /// `queries` rows, with a path of `depth` digests each.
    pub open spec fn wf(self, depth: nat, n: nat) -> bool {
        &&& grids_ok(self.rows@, n)
        &&& self.siblings@.len() == self.rows@.len()
        &&& forall|q: int|
            0 <= q < self.siblings@.len() ==> (#[trigger] self.siblings@[q])@.len() == depth
                && netlist::all_below(self.siblings@[q]@, 256, n)
    }
}

/// The wires hold rows of the data's sizes.
pub open spec fn rows_shaped(rows: Seq<Vec<Elem>>, data: Seq<Vec<F>>) -> bool {
    &&& rows.len() == data.len()
    &&& forall|q: int| 0 <= q < rows.len() ==> (#[trigger] rows[q])@.len() == data[q]@.len()
}

/// A byte string of `len` bytes on wires.
pub open spec fn bytes_ok(ws: Seq<usize>, len: nat, n: nat) -> bool {
    ws.len() == 8 * len && netlist::below(ws, n)
}

impl RoundInputs {
    pub open spec fn wf(self, grinds: bool, folding_grinds: bool, cap: nat, depth: nat, n: nat) -> bool {
        &&& bytes_ok(self.root@, cap, n)
        &&& elems_ok(self.ood_answers@, n)
        &&& optional_ok(self.pow_witness, grinds, n)
        &&& sumcheck_ok(self.sumcheck@, folding_grinds, n)
        &&& self.opening.wf(depth, n)
    }

    pub open spec fn messages(self, c: Netlist, env: Env, fallback: RoundM) -> RoundM {
        RoundM {
            cap: wire_sponge::wire_bytes(c, env, self.root@),
            ood_answers: netlist::words(c, env, self.ood_answers@),
            pow_witness: optional(c, env, self.pow_witness, fallback.pow_witness),
            seed_sumcheck: fallback.seed_sumcheck,
            sumcheck: sumcheck_messages(self.sumcheck@, c, env, fallback.sumcheck),
            rows: self.opening.rows_at(c, env),
        }
    }
}

/// The length of the cap before round `i`.
pub open spec fn cap_len(d: Data, i: nat) -> nat {
    if i == 0 {
        d.cap@.len()
    } else {
        d.rounds@[i - 1].cap@.len()
    }
}

/// The levels of round `i`'s paths.
pub open spec fn depth_of(cfg: Config, d: Data, i: nat) -> nat {
    (protocol::width_of(cfg, i) - protocol::log2(cap_len(d, i) / 32)) as nat
}

/// Round `i`'s inputs have the data's shape.
pub open spec fn round_ok(r: RoundInputs, cfg: Config, d: Data, i: int, n: nat) -> bool {
    &&& r.wf(
        cfg.rounds@[i].pow_bits > 0,
        cfg.rounds@[i].folding_pow_bits > 0,
        d.rounds@[i].cap@.len(),
        depth_of(cfg, d, i as nat),
        n,
    )
    &&& r.ood_answers@.len() == d.rounds@[i].ood_answers@.len()
    &&& r.sumcheck@.len() == d.rounds@[i].sumcheck@.len()
    &&& rows_shaped(r.opening.rows@, d.rounds@[i].opening.rows@)
}

pub open spec fn rounds_ok(rounds: Seq<RoundInputs>, cfg: Config, d: Data, n: nat) -> bool {
    forall|i: int| 0 <= i < rounds.len() ==> #[trigger] round_ok(rounds[i], cfg, d, i, n)
}

/// Round `i`'s inputs carry the data.
pub open spec fn round_carried(
    r: RoundInputs,
    cfg: Config,
    d: Data,
    ch: Challenges,
    i: int,
    c: Netlist,
    env: Env,
) -> bool {
    &&& r.messages(c, env, d.rounds@[i].messages()) == d.rounds@[i].messages()
    &&& r.opening.paths_at(c, env) == reference::opening_paths(
        d.rounds@[i].opening,
        protocol::cap_before(d.messages(), i as nat),
        ch.rounds@[i].queries@,
        cfg.rounds@[i].index_width as nat,
    )
}

impl Inputs {
    /// The wires are those of a proof with `d`'s shape.
    pub open spec fn wf(self, cfg: Config, d: Data, n: nat) -> bool {
        &&& bytes_ok(self.root@, d.cap@.len(), n)
        &&& self.initial_ood_answers@.len() == d.initial_ood_answers@.len()
        &&& elems_ok(self.initial_ood_answers@, n)
        &&& rows_shaped(self.openings@, d.openings@)
        &&& grids_ok(self.openings@, n)
        &&& self.initial_sumcheck@.len() == d.initial_sumcheck@.len()
        &&& sumcheck_ok(self.initial_sumcheck@, cfg.initial_folding_pow_bits > 0, n)
        &&& self.rounds@.len() == d.rounds@.len()
        &&& rounds_ok(self.rounds@, cfg, d, n)
        &&& self.final_poly@.len() == d.final_poly@.len()
        &&& elems_ok(self.final_poly@, n)
        &&& optional_ok(self.final_pow_witness, cfg.final_pow_bits > 0, n)
        &&& self.final_sumcheck@.len() == d.final_sumcheck@.len()
        &&& sumcheck_ok(self.final_sumcheck@, cfg.final_folding_pow_bits > 0, n)
        &&& self.final_opening.wf(depth_of(cfg, d, d.rounds@.len()), n)
        &&& rows_shaped(self.final_opening.rows@, d.final_opening.rows@)
    }

    /// The messages on the wires; the seeds, and the grinding witnesses that
    /// nobody reads, are those of `fallback`.
    pub open spec fn messages(self, c: Netlist, env: Env, fallback: ProofM) -> ProofM {
        ProofM {
            seed_commitment: fallback.seed_commitment,
            seed_virtual: fallback.seed_virtual,
            seed_claim: fallback.seed_claim,
            seed_whir_batching: fallback.seed_whir_batching,
            seed_initial_sumcheck: fallback.seed_initial_sumcheck,
            seed_final_sumcheck: fallback.seed_final_sumcheck,
            cap: wire_sponge::wire_bytes(c, env, self.root@),
            initial_ood_answers: netlist::words(c, env, self.initial_ood_answers@),
            openings: grids(c, env, self.openings@),
            initial_sumcheck: sumcheck_messages(
                self.initial_sumcheck@,
                c,
                env,
                fallback.initial_sumcheck,
            ),
            rounds: Seq::new(
                self.rounds@.len(),
                |i: int| self.rounds@[i].messages(c, env, fallback.rounds[i]),
            ),
            final_poly: netlist::words(c, env, self.final_poly@),
            final_pow_witness: optional(
                c,
                env,
                self.final_pow_witness,
                fallback.final_pow_witness,
            ),
            final_sumcheck: sumcheck_messages(
                self.final_sumcheck@,
                c,
                env,
                fallback.final_sumcheck,
            ),
            final_rows: self.final_opening.rows_at(c, env),
        }
    }

    /// The opening of round `i`, or the final one.
    pub open spec fn opening_at(self, i: nat) -> OpeningInputs {
        if i < self.rounds@.len() {
            self.rounds@[i as int].opening
        } else {
            self.final_opening
        }
    }

    /// What is authenticated: every row, along its path.
    pub open spec fn authentications(self, c: Netlist, env: Env) -> Seq<protocol::Auth> {
        Seq::new(
            self.rounds@.len() + 1,
            |i: int|
                protocol::Auth {
                    rows: self.opening_at(i as nat).rows_at(c, env),
                    paths: self.opening_at(i as nat).paths_at(c, env),
                },
        )
    }
}

// ---------------------------------------------------------------------------
// Emitting gates leaves the inputs alone.
// ---------------------------------------------------------------------------

pub proof fn lemma_grids_ext(a: Netlist, b: Netlist, env: Env, xs: Seq<Vec<Elem>>)
    requires
        netlist::ext(a, b),
        grids_ok(xs, a.next),
    ensures
        grids(b, env, xs) == grids(a, env, xs),
{
    assert forall|i: int| 0 <= i < xs.len() implies grids(b, env, xs)[i] == grids(
        a,
        env,
        xs,
    )[i] by {
        assert(elems_ok(xs[i]@, a.next));
    }
    assert(grids(b, env, xs) =~= grids(a, env, xs));
}

pub proof fn lemma_sumcheck_ext(
    a: Netlist,
    b: Netlist,
    env: Env,
    v: Seq<SumcheckInputs>,
    grinds: bool,
    fallback: Seq<SumcheckM>,
)
    requires
        netlist::ext(a, b),
        sumcheck_ok(v, grinds, a.next),
    ensures
        sumcheck_messages(v, b, env, fallback) == sumcheck_messages(v, a, env, fallback),
{
    assert forall|i: int| 0 <= i < v.len() implies sumcheck_messages(v, b, env, fallback)[i]
        == sumcheck_messages(v, a, env, fallback)[i] by {
        assert(v[i].wf(grinds, a.next));
    }
    assert(sumcheck_messages(v, b, env, fallback) =~= sumcheck_messages(v, a, env, fallback));
}

pub proof fn lemma_opening_ext(a: Netlist, b: Netlist, env: Env, o: OpeningInputs, depth: nat)
    requires
        netlist::ext(a, b),
        o.wf(depth, a.next),
    ensures
        o.rows_at(b, env) == o.rows_at(a, env),
        o.paths_at(b, env) == o.paths_at(a, env),
{
    lemma_grids_ext(a, b, env, o.rows@);
    let p = o.paths_at(a, env);
    let q = o.paths_at(b, env);
    assert forall|k: int| 0 <= k < p.len() implies q[k] == p[k] by {
        assert(netlist::all_below(o.siblings@[k]@, 256, a.next));
        assert forall|l: int| 0 <= l < p[k].len() implies q[k][l] == p[k][l] by {
            let ws = o.siblings@[k]@[l]@;
            assert(ws.len() == 256 && netlist::below(ws, a.next));
        }
        assert(q[k] =~= p[k]);
    }
    assert(q =~= p);
}

pub proof fn lemma_grids_ok(xs: Seq<Vec<Elem>>, n: nat, m: nat)
    requires
        grids_ok(xs, n),
        n <= m,
    ensures
        grids_ok(xs, m),
{
    assert forall|i: int| 0 <= i < xs.len() implies elems_ok(#[trigger] xs[i]@, m) by {
        assert(elems_ok(xs[i]@, n));
    }
}

pub proof fn lemma_sumcheck_ok(v: Seq<SumcheckInputs>, grinds: bool, n: nat, m: nat)
    requires
        sumcheck_ok(v, grinds, n),
        n <= m,
    ensures
        sumcheck_ok(v, grinds, m),
{
    assert forall|i: int| 0 <= i < v.len() implies (#[trigger] v[i]).wf(grinds, m) by {
        assert(v[i].wf(grinds, n));
    }
}

pub proof fn lemma_opening_ok(o: OpeningInputs, depth: nat, n: nat, m: nat)
    requires
        o.wf(depth, n),
        n <= m,
    ensures
        o.wf(depth, m),
{
    lemma_grids_ok(o.rows@, n, m);
    assert forall|q: int| 0 <= q < o.siblings@.len() implies (#[trigger] o.siblings@[q])@.len()
        == depth && netlist::all_below(o.siblings@[q]@, 256, m) by {
        assert(netlist::all_below(o.siblings@[q]@, 256, n));
    }
}

pub proof fn lemma_round_ok(r: RoundInputs, cfg: Config, d: Data, i: int, n: nat, m: nat)
    requires
        round_ok(r, cfg, d, i, n),
        n <= m,
    ensures
        round_ok(r, cfg, d, i, m),
{
    lemma_sumcheck_ok(r.sumcheck@, cfg.rounds@[i].folding_pow_bits > 0, n, m);
    lemma_opening_ok(r.opening, depth_of(cfg, d, i as nat), n, m);
}

/// A round's messages and paths stay as they are.
pub proof fn lemma_round_ext(
    a: Netlist,
    b: Netlist,
    env: Env,
    r: RoundInputs,
    cfg: Config,
    d: Data,
    i: int,
)
    requires
        netlist::ext(a, b),
        round_ok(r, cfg, d, i, a.next),
    ensures
        forall|fallback: RoundM| #[trigger]
            r.messages(b, env, fallback) == r.messages(a, env, fallback),
        r.opening.rows_at(b, env) == r.opening.rows_at(a, env),
        r.opening.paths_at(b, env) == r.opening.paths_at(a, env),
{
    lemma_opening_ext(a, b, env, r.opening, depth_of(cfg, d, i as nat));
    assert forall|fallback: RoundM| #[trigger]
        r.messages(b, env, fallback) == r.messages(a, env, fallback) by {
        lemma_sumcheck_ext(
            a,
            b,
            env,
            r.sumcheck@,
            cfg.rounds@[i].folding_pow_bits > 0,
            fallback.sumcheck,
        );
    }
}

/// The inputs' shape outlasts further wires.
pub proof fn lemma_inputs_ok(inputs: Inputs, cfg: Config, d: Data, n: nat, m: nat)
    requires
        inputs.wf(cfg, d, n),
        n <= m,
    ensures
        inputs.wf(cfg, d, m),
{
    lemma_grids_ok(inputs.openings@, n, m);
    lemma_sumcheck_ok(inputs.initial_sumcheck@, cfg.initial_folding_pow_bits > 0, n, m);
    lemma_sumcheck_ok(inputs.final_sumcheck@, cfg.final_folding_pow_bits > 0, n, m);
    lemma_opening_ok(inputs.final_opening, depth_of(cfg, d, d.rounds@.len()), n, m);
    assert forall|i: int| 0 <= i < inputs.rounds@.len() implies #[trigger] round_ok(
        inputs.rounds@[i],
        cfg,
        d,
        i,
        m,
    ) by {
        lemma_round_ok(inputs.rounds@[i], cfg, d, i, n, m);
    }
}

/// The messages and the authentications stay as they are.
pub proof fn lemma_inputs_ext(
    a: Netlist,
    b: Netlist,
    env: Env,
    inputs: Inputs,
    cfg: Config,
    d: Data,
    fallback: ProofM,
)
    requires
        netlist::ext(a, b),
        inputs.wf(cfg, d, a.next),
    ensures
        inputs.messages(b, env, fallback) == inputs.messages(a, env, fallback),
        inputs.authentications(b, env) == inputs.authentications(a, env),
{
    lemma_grids_ext(a, b, env, inputs.openings@);
    lemma_sumcheck_ext(
        a,
        b,
        env,
        inputs.initial_sumcheck@,
        cfg.initial_folding_pow_bits > 0,
        fallback.initial_sumcheck,
    );
    lemma_sumcheck_ext(
        a,
        b,
        env,
        inputs.final_sumcheck@,
        cfg.final_folding_pow_bits > 0,
        fallback.final_sumcheck,
    );
    lemma_opening_ext(
        a,
        b,
        env,
        inputs.final_opening,
        depth_of(cfg, d, d.rounds@.len()),
    );
    let p = inputs.messages(a, env, fallback);
    let q = inputs.messages(b, env, fallback);
    assert forall|i: int| 0 <= i < inputs.rounds@.len() implies q.rounds[i] == p.rounds[i] by {
        assert(round_ok(inputs.rounds@[i], cfg, d, i, a.next));
        lemma_round_ext(a, b, env, inputs.rounds@[i], cfg, d, i);
    }
    assert(q.rounds =~= p.rounds);
    let s = inputs.authentications(a, env);
    let t = inputs.authentications(b, env);
    assert forall|i: int| 0 <= i < s.len() implies t[i] == s[i] by {
        if i < inputs.rounds@.len() {
            assert(round_ok(inputs.rounds@[i], cfg, d, i, a.next));
            lemma_round_ext(a, b, env, inputs.rounds@[i], cfg, d, i);
        }
    }
    assert(t =~= s);
}

// ---------------------------------------------------------------------------
// Allocation.
// ---------------------------------------------------------------------------

/// The inputs from wire `base` on carry `w`.
pub open spec fn carried(env: Env, base: nat, w: Seq<bool>) -> bool {
    forall|i: int| 0 <= i < w.len() ==> env(base + i) == #[trigger] w[i]
}

/// The builder was told that the wires from `base` on carry `w`, from its entry
/// `from` on.
pub open spec fn told(c: Netlist, base: nat, from: nat, w: Seq<bool>) -> bool {
    forall|i: int| from <= i < w.len() ==> netlist::says(c, base + i, #[trigger] w[i])
}

/// More input wires, and their bits.
pub open spec fn grew(
    b0: Netlist,
    w0: Seq<bool>,
    b1: Netlist,
    w1: Seq<bool>,
    base: nat,
) -> bool {
    &&& netlist::ext(b0, b1)
    &&& b1.gates == b0.gates
    &&& b0.next == base + w0.len()
    &&& b1.next == base + w1.len()
    &&& w0.len() <= w1.len()
    &&& w1.take(w0.len() as int) == w0
    &&& told(b1, base, w0.len(), w1)
}

pub proof fn lemma_grew_refl(b0: Netlist, w0: Seq<bool>, base: nat)
    requires
        b0.next == base + w0.len(),
    ensures
        grew(b0, w0, b0, w0, base),
{
    netlist::lemma_ext_refl(b0);
    assert(w0.take(w0.len() as int) =~= w0);
}

pub proof fn lemma_grew_trans(
    b0: Netlist,
    w0: Seq<bool>,
    b1: Netlist,
    w1: Seq<bool>,
    b2: Netlist,
    w2: Seq<bool>,
    base: nat,
)
    requires
        grew(b0, w0, b1, w1, base),
        grew(b1, w1, b2, w2, base),
    ensures
        grew(b0, w0, b2, w2, base),
{
    netlist::lemma_ext_trans(b0, b1, b2);
    assert(w2.take(w0.len() as int) =~= w1.take(w0.len() as int));
    assert forall|i: int| w0.len() <= i < w2.len() implies netlist::says(
        b2,
        base + i,
        #[trigger] w2[i],
    ) by {
        if i < w1.len() {
            assert(w2.take(w1.len() as int)[i] == w2[i]);
            assert(netlist::says(b1, base + i, w1[i]));
            netlist::lemma_ext_told(b1, b2, base + i);
        }
    }
}

pub proof fn lemma_carried_prefix(
    b0: Netlist,
    w0: Seq<bool>,
    b1: Netlist,
    w1: Seq<bool>,
    base: nat,
    env: Env,
)
    requires
        grew(b0, w0, b1, w1, base),
        carried(env, base, w1),
    ensures
        carried(env, base, w0),
{
    assert forall|i: int| 0 <= i < w0.len() implies env(base + i) == #[trigger] w0[i] by {
        assert(w1.take(w0.len() as int)[i] == w1[i]);
    }
}

/// Fresh input wires carrying `bits`, which are appended to `witness`.
fn alloc_bits<T: ValuedBuilder>(
    b: &mut T,
    witness: &mut Vec<bool>,
    bits: &[bool],
    Ghost(base): Ghost<nat>,
) -> (r: Vec<usize>)
    requires
        old(b).inv(),
        old(b)@.next == base + old(witness)@.len(),
    ensures
        final(b).inv(),
        grew(old(b)@, old(witness)@, final(b)@, final(witness)@, base),
        r@.len() == bits@.len(),
        netlist::below(r@, final(b)@.next),
        final(b)@.next == old(b)@.next + bits@.len(),
        forall|env: Env| #[trigger]
            netlist::bits(final(b)@, env, r@) == wire_layout::bits(
                env,
                old(b)@.next as int,
                bits@.len(),
            ),
        forall|env: Env|
            carried(env, base, final(witness)@) ==> #[trigger] netlist::bits(final(b)@, env, r@)
                == bits@,
{
    let ghost first = b@;
    let ghost w0 = witness@;
    let mut r: Vec<usize> = Vec::new();
    proof {
        lemma_grew_refl(first, w0, base);
        assert(w0 + bits@.take(0) =~= w0);
    }
    while r.len() < bits.len()
        invariant
            b.inv(),
            r@.len() <= bits@.len(),
            grew(first, w0, b@, witness@, base),
            witness@ == w0 + bits@.take(r@.len() as int),
            netlist::below(r@, b@.next),
            forall|i: int| 0 <= i < r@.len() ==> #[trigger] r@[i] == base + w0.len() + i,
            forall|env: Env, i: int|
                0 <= i < r@.len() ==> #[trigger] netlist::value(
                    b@,
                    env,
                    base + w0.len() + i,
                ) == env(base + w0.len() + i),
        decreases bits@.len() - r@.len(),
    {
        let k = r.len();
        let ghost c = b@;
        let ghost wk = witness@;
        let bit = bits[k];
        proof {
            b.lemma_inv();
        }
        let w = b.fresh_one();
        let ghost asked = b@;
        proof {
            b.lemma_inv();
            netlist::lemma_tell(asked, w as int, bit);
        }
        b.set_input(w, bit);
        witness.push(bit);
        r.push(w);
        proof {
            assert(witness@.take(wk.len() as int) =~= wk);
            assert(grew(c, wk, b@, witness@, base));
            lemma_grew_trans(first, w0, c, wk, b@, witness@, base);
            assert(witness@ =~= w0 + bits@.take(k + 1));
            assert forall|env: Env, i: int| 0 <= i < r@.len() implies #[trigger] netlist::value(
                b@,
                env,
                base + w0.len() + i,
            ) == env(base + w0.len() + i) by {
                if i < k {
                    assert(netlist::value(c, env, base + w0.len() + i) == env(
                        base + w0.len() + i,
                    ));
                }
            }
        }
    }
    proof {
        assert forall|env: Env| #[trigger]
            netlist::bits(b@, env, r@) == wire_layout::bits(
                env,
                first.next as int,
                bits@.len(),
            ) by {
            assert forall|i: int| 0 <= i < bits@.len() implies netlist::bits(b@, env, r@)[i]
                == env(first.next + i) by {
                assert(netlist::value(b@, env, base + w0.len() + i) == env(
                    base + w0.len() + i,
                ));
                assert(r@[i] as int == base + w0.len() + i);
            }
            assert(netlist::bits(b@, env, r@) =~= wire_layout::bits(
                env,
                first.next as int,
                bits@.len(),
            ));
        }
        assert forall|env: Env| carried(env, base, witness@) implies #[trigger] netlist::bits(
            b@,
            env,
            r@,
        ) == bits@ by {
            assert forall|i: int| 0 <= i < bits@.len() implies netlist::bits(b@, env, r@)[i]
                == bits@[i] by {
                assert(netlist::value(b@, env, base + w0.len() + i) == env(
                    base + w0.len() + i,
                ));
                assert(witness@[w0.len() + i] == bits@[i]);
                assert(r@[i] as int == base + w0.len() + i);
            }
            assert(netlist::bits(b@, env, r@) =~= bits@);
        }
    }
    r
}

/// The bits of an element.
pub(crate) fn elem_bits(x: F) -> (r: Vec<bool>)
    ensures
        r@ == x@,
{
    tower::witness_bits(x.to_repr(), 128)
}

/// A fresh input element carrying `x`, its bits appended to `witness`.
pub(crate) fn alloc_elem<T: ValuedBuilder>(
    b: &mut T,
    witness: &mut Vec<bool>,
    x: F,
    Ghost(base): Ghost<nat>,
) -> (r: Elem)
    requires
        old(b).inv(),
        old(b)@.next == base + old(witness)@.len(),
    ensures
        final(b).inv(),
        grew(old(b)@, old(witness)@, final(b)@, final(witness)@, base),
        elem_ok(r@, final(b)@.next),
        final(b)@.next == old(b)@.next + 128,
        forall|env: Env| #[trigger]
            netlist::bits(final(b)@, env, r@) == wire_layout::bits(
                env,
                old(b)@.next as int,
                128,
            ),
        forall|env: Env|
            carried(env, base, final(witness)@) ==> #[trigger] netlist::bits(final(b)@, env, r@)
                == x@,
{
    let bits = elem_bits(x);
    alloc_bits(b, witness, bits.as_slice(), Ghost(base))
}

/// Fresh input elements carrying `xs`.
pub(crate) fn alloc_elems<T: ValuedBuilder>(
    b: &mut T,
    witness: &mut Vec<bool>,
    xs: &[F],
    Ghost(base): Ghost<nat>,
) -> (r: Vec<Elem>)
    requires
        old(b).inv(),
        old(b)@.next == base + old(witness)@.len(),
    ensures
        final(b).inv(),
        grew(old(b)@, old(witness)@, final(b)@, final(witness)@, base),
        r@.len() == xs@.len(),
        elems_ok(r@, final(b)@.next),
        final(b)@.next == old(b)@.next + 128 * xs@.len(),
        forall|env: Env| #[trigger]
            netlist::words(final(b)@, env, r@) == wire_layout::elems(
                env,
                old(b)@.next as int,
                xs@.len(),
            ),
        forall|env: Env|
            carried(env, base, final(witness)@) ==> #[trigger] netlist::words(final(b)@, env, r@)
                == reference::elts(xs@),
{
    let ghost first = b@;
    let ghost w0 = witness@;
    let mut r: Vec<Elem> = Vec::new();
    proof {
        lemma_grew_refl(first, w0, base);
    }
    while r.len() < xs.len()
        invariant
            b.inv(),
            r@.len() <= xs@.len(),
            grew(first, w0, b@, witness@, base),
            elems_ok(r@, b@.next),
            b@.next == first.next + 128 * r@.len(),
            forall|env: Env, i: int|
                0 <= i < r@.len() ==> #[trigger] netlist::bits(b@, env, r@[i]@)
                    == wire_layout::bits(env, first.next + 128 * i, 128),
            forall|env: Env, i: int|
                carried(env, base, witness@) && 0 <= i < r@.len() ==> #[trigger] netlist::bits(
                    b@,
                    env,
                    r@[i]@,
                ) == xs@[i]@,
        decreases xs@.len() - r@.len(),
    {
        let k = r.len();
        let ghost c = b@;
        let ghost wk = witness@;
        let ghost r0 = r@;
        let x = alloc_elem(b, witness, xs[k], Ghost(base));
        r.push(x);
        proof {
            lemma_grew_trans(first, w0, c, wk, b@, witness@, base);
            assert forall|env: Env, i: int| 0 <= i < r@.len() implies #[trigger] netlist::bits(
                b@,
                env,
                r@[i]@,
            ) == wire_layout::bits(env, first.next + 128 * i, 128) by {
                if i < k {
                    assert(r@[i] == r0[i]);
                    assert(r0[i]@.len() == 128 && netlist::below(r0[i]@, c.next));
                    assert(netlist::bits(c, env, r0[i]@) == wire_layout::bits(
                        env,
                        first.next + 128 * i,
                        128,
                    ));
                }
            }
            assert forall|env: Env, i: int|
                carried(env, base, witness@) && 0 <= i < r@.len() implies #[trigger] netlist::bits(
                b@,
                env,
                r@[i]@,
            ) == xs@[i]@ by {
                if i < k {
                    assert(r@[i] == r0[i]);
                    lemma_carried_prefix(c, wk, b@, witness@, base, env);
                    assert(r0[i]@.len() == 128 && netlist::below(r0[i]@, c.next));
                    assert(netlist::bits(c, env, r0[i]@) == xs@[i]@);
                }
            }
        }
    }
    proof {
        assert forall|env: Env| #[trigger]
            netlist::words(b@, env, r@) == wire_layout::elems(
                env,
                first.next as int,
                xs@.len(),
            ) by {
            let want = wire_layout::elems(env, first.next as int, xs@.len());
            assert forall|i: int| 0 <= i < r@.len() implies netlist::words(b@, env, r@)[i]
                == want[i] by {
                assert(netlist::bits(b@, env, r@[i]@) == wire_layout::bits(
                    env,
                    first.next + 128 * i,
                    128,
                ));
            }
            assert(netlist::words(b@, env, r@) =~= want);
        }
        assert forall|env: Env| carried(env, base, witness@) implies #[trigger] netlist::words(
            b@,
            env,
            r@,
        ) == reference::elts(xs@) by {
            assert forall|i: int| 0 <= i < r@.len() implies netlist::words(b@, env, r@)[i]
                == reference::elts(xs@)[i] by {
                assert(netlist::bits(b@, env, r@[i]@) == xs@[i]@);
            }
            assert(netlist::words(b@, env, r@) =~= reference::elts(xs@));
        }
    }
    r
}

/// Fresh input rows.
pub(crate) fn alloc_rows<T: ValuedBuilder>(
    b: &mut T,
    witness: &mut Vec<bool>,
    xs: &Vec<Vec<F>>,
    Ghost(base): Ghost<nat>,
) -> (r: Vec<Vec<Elem>>)
    requires
        old(b).inv(),
        old(b)@.next == base + old(witness)@.len(),
    ensures
        final(b).inv(),
        grew(old(b)@, old(witness)@, final(b)@, final(witness)@, base),
        rows_shaped(r@, xs@),
        grids_ok(r@, final(b)@.next),
        final(b)@.next == old(b)@.next + wire_layout::rows_size(wire_layout::lens(xs@)),
        forall|env: Env| #[trigger]
            grids(final(b)@, env, r@) == wire_layout::rows(
                env,
                old(b)@.next as int,
                wire_layout::lens(xs@),
            ),
        forall|env: Env|
            carried(env, base, final(witness)@) ==> #[trigger] grids(final(b)@, env, r@)
                == reference::elts2(xs@),
{
    let ghost first = b@;
    let ghost w0 = witness@;
    let ghost lens = wire_layout::lens(xs@);
    let mut r: Vec<Vec<Elem>> = Vec::new();
    proof {
        lemma_grew_refl(first, w0, base);
        assert(lens.take(0) =~= Seq::<nat>::empty());
        assert forall|env: Env| #[trigger]
            grids(first, env, r@) == Seq::<Seq<Elt>>::empty() by {
            assert(grids(first, env, r@) =~= Seq::<Seq<Elt>>::empty());
        }
    }
    while r.len() < xs.len()
        invariant
            b.inv(),
            r@.len() <= xs@.len(),
            grew(first, w0, b@, witness@, base),
            grids_ok(r@, b@.next),
            lens == wire_layout::lens(xs@),
            b@.next == first.next + wire_layout::rows_size(lens.take(r@.len() as int)),
            forall|env: Env| #[trigger]
                grids(b@, env, r@) == wire_layout::rows(
                    env,
                    first.next as int,
                    lens.take(r@.len() as int),
                ),
            forall|i: int| 0 <= i < r@.len() ==> (#[trigger] r@[i])@.len() == xs@[i]@.len(),
            forall|env: Env, i: int|
                carried(env, base, witness@) && 0 <= i < r@.len() ==> #[trigger] netlist::words(
                    b@,
                    env,
                    r@[i]@,
                ) == reference::elts(xs@[i]@),
        decreases xs@.len() - r@.len(),
    {
        let k = r.len();
        let ghost c = b@;
        let ghost wk = witness@;
        let ghost r0 = r@;
        let x = alloc_elems(b, witness, xs[k].as_slice(), Ghost(base));
        let ghost xw = x@;
        r.push(x);
        proof {
            lemma_grew_trans(first, w0, c, wk, b@, witness@, base);
            assert(lens.take(k + 1).drop_last() =~= lens.take(k as int));
            assert(lens.take(k + 1).last() == xs@[k as int]@.len());
            assert forall|env: Env| #[trigger]
                grids(b@, env, r@) == wire_layout::rows(
                    env,
                    first.next as int,
                    lens.take(k + 1),
                ) by {
                lemma_grids_ext(c, b@, env, r0);
                assert(grids(c, env, r0) == wire_layout::rows(
                    env,
                    first.next as int,
                    lens.take(k as int),
                ));
                assert(grids(b@, env, r@) =~= grids(b@, env, r0).push(
                    netlist::words(b@, env, xw),
                ));
            }
            assert forall|i: int| 0 <= i < r@.len() implies elems_ok(#[trigger] r@[i]@, b@.next) by {
                if i < k {
                    assert(r@[i] == r0[i]);
                    assert(elems_ok(r0[i]@, c.next));
                }
            }
            assert forall|env: Env, i: int|
                carried(env, base, witness@) && 0 <= i < r@.len() implies #[trigger] netlist::words(
                b@,
                env,
                r@[i]@,
            ) == reference::elts(xs@[i]@) by {
                if i < k {
                    assert(r@[i] == r0[i]);
                    lemma_carried_prefix(c, wk, b@, witness@, base, env);
                    assert(elems_ok(r0[i]@, c.next));
                    assert(netlist::words(c, env, r0[i]@) == reference::elts(xs@[i]@));
                }
            }
        }
    }
    proof {
        assert(lens.take(r@.len() as int) =~= lens);
        assert forall|env: Env| carried(env, base, witness@) implies #[trigger] grids(
            b@,
            env,
            r@,
        ) == reference::elts2(xs@) by {
            assert forall|i: int| 0 <= i < r@.len() implies grids(b@, env, r@)[i]
                == reference::elts2(xs@)[i] by {
                assert(netlist::words(b@, env, r@[i]@) == reference::elts(xs@[i]@));
            }
            assert(grids(b@, env, r@) =~= reference::elts2(xs@));
        }
    }
    r
}

/// Fresh input wires carrying bytes.
pub(crate) fn alloc_bytes<T: ValuedBuilder>(
    b: &mut T,
    witness: &mut Vec<bool>,
    bytes: &[u8],
    Ghost(base): Ghost<nat>,
) -> (r: Vec<usize>)
    requires
        old(b).inv(),
        old(b)@.next == base + old(witness)@.len(),
    ensures
        final(b).inv(),
        grew(old(b)@, old(witness)@, final(b)@, final(witness)@, base),
        bytes_ok(r@, bytes@.len(), final(b)@.next),
        final(b)@.next == old(b)@.next + 8 * bytes@.len(),
        forall|env: Env| #[trigger]
            wire_sponge::wire_bytes(final(b)@, env, r@) == wire_layout::byte_string(
                env,
                old(b)@.next as int,
                bytes@.len(),
            ),
        forall|env: Env|
            carried(env, base, final(witness)@) ==> #[trigger] netlist::bits(final(b)@, env, r@)
                == bytes::bits_of_bytes(bytes@),
        forall|env: Env|
            carried(env, base, final(witness)@) ==> #[trigger] wire_sponge::wire_bytes(
                final(b)@,
                env,
                r@,
            ) == bytes@,
{
    let mut bits: Vec<bool> = Vec::new();
    let ghost all = bytes::bits_of_bytes(bytes@);
    let mut k: usize = 0;
    while k < bytes.len()
        invariant
            k <= bytes@.len(),
            all == bytes::bits_of_bytes(bytes@),
            bits@.len() == 8 * k,
            forall|i: int| 0 <= i < bits@.len() ==> #[trigger] bits@[i] == all[i],
        decreases bytes@.len() - k,
    {
        let byte = bytes[k];
        let mut j: u8 = 0;
        while j < 8
            invariant
                k < bytes@.len(),
                j <= 8,
                byte == bytes@[k as int],
                all == bytes::bits_of_bytes(bytes@),
                bits@.len() == 8 * k + j,
                forall|i: int| 0 <= i < bits@.len() ==> #[trigger] bits@[i] == all[i],
            decreases 8 - j,
        {
            assert((8 * k + j) / 8 == k);
            assert((8 * k + j) % 8 == j);
            bits.push((byte >> j) & 1 == 1);
            j = j + 1;
        }
        k = k + 1;
    }
    assert(bits@ =~= all);
    let r = alloc_bits(b, witness, bits.as_slice(), Ghost(base));
    proof {
        assert forall|env: Env| #[trigger]
            wire_sponge::wire_bytes(b@, env, r@) == wire_layout::byte_string(
                env,
                old(b)@.next as int,
                bytes@.len(),
            ) by {
            assert(netlist::bits(b@, env, r@) == wire_layout::bits(
                env,
                old(b)@.next as int,
                8 * bytes@.len(),
            ));
        }
        assert forall|env: Env|
            carried(env, base, witness@) implies #[trigger] wire_sponge::wire_bytes(b@, env, r@)
            == bytes@ by {
            assert(netlist::bits(b@, env, r@) == all);
            bytes::lemma_bytes_of_bits_of_bytes(bytes@);
        }
    }
    r
}

/// A witness element, where there is grinding.
fn alloc_witness<T: ValuedBuilder>(
    b: &mut T,
    witness: &mut Vec<bool>,
    grinds: bool,
    x: F,
    Ghost(base): Ghost<nat>,
) -> (r: Option<Elem>)
    requires
        old(b).inv(),
        old(b)@.next == base + old(witness)@.len(),
    ensures
        final(b).inv(),
        grew(old(b)@, old(witness)@, final(b)@, final(witness)@, base),
        optional_ok(r, grinds, final(b)@.next),
        final(b)@.next == old(b)@.next + wire_layout::optional_size(grinds),
        forall|env: Env, fallback: Elt| #[trigger]
            optional(final(b)@, env, r, fallback) == wire_layout::optional(
                env,
                old(b)@.next as int,
                grinds,
                fallback,
            ),
        forall|env: Env|
            carried(env, base, final(witness)@) ==> #[trigger] optional(final(b)@, env, r, x@)
                == x@,
{
    if grinds {
        Some(alloc_elem(b, witness, x, Ghost(base)))
    } else {
        proof {
            lemma_grew_refl(b@, witness@, base);
        }
        None
    }
}

/// A sumcheck's messages.
fn alloc_sumcheck<T: ValuedBuilder>(
    b: &mut T,
    witness: &mut Vec<bool>,
    rounds: &[SumcheckRoundData],
    pow_bits: usize,
    Ghost(base): Ghost<nat>,
) -> (r: Vec<SumcheckInputs>)
    requires
        old(b).inv(),
        old(b)@.next == base + old(witness)@.len(),
    ensures
        final(b).inv(),
        grew(old(b)@, old(witness)@, final(b)@, final(witness)@, base),
        r@.len() == rounds@.len(),
        sumcheck_ok(r@, pow_bits > 0, final(b)@.next),
        final(b)@.next == old(b)@.next + wire_layout::sumcheck_size(
            rounds@.len() as int,
            pow_bits > 0,
        ),
        forall|env: Env, fallback: Seq<SumcheckM>| #[trigger]
            sumcheck_messages(r@, final(b)@, env, fallback) == wire_layout::sumcheck(
                env,
                old(b)@.next as int,
                rounds@.len(),
                pow_bits > 0,
                fallback,
            ),
        forall|env: Env|
            carried(env, base, final(witness)@) ==> #[trigger] sumcheck_messages(
                r@,
                final(b)@,
                env,
                reference::sumcheck_messages(rounds@),
            ) == reference::sumcheck_messages(rounds@),
{
    let ghost first = b@;
    let ghost w0 = witness@;
    let ghost want = reference::sumcheck_messages(rounds@);
    let mut r: Vec<SumcheckInputs> = Vec::new();
    proof {
        lemma_grew_refl(first, w0, base);
    }
    while r.len() < rounds.len()
        invariant
            b.inv(),
            want == reference::sumcheck_messages(rounds@),
            r@.len() <= rounds@.len(),
            grew(first, w0, b@, witness@, base),
            sumcheck_ok(r@, pow_bits > 0, b@.next),
            b@.next == first.next + wire_layout::sumcheck_size(r@.len() as int, pow_bits > 0),
            forall|env: Env, i: int, fallback: SumcheckM|
                0 <= i < r@.len() ==> #[trigger] r@[i].message(b@, env, fallback)
                    == wire_layout::sumcheck_message(
                    env,
                    first.next + wire_layout::sumcheck_size(i, pow_bits > 0),
                    pow_bits > 0,
                    fallback,
                ),
            forall|env: Env, i: int|
                carried(env, base, witness@) && 0 <= i < r@.len() ==> (#[trigger] r@[i].message(
                    b@,
                    env,
                    want[i],
                )) == want[i],
        decreases rounds@.len() - r@.len(),
    {
        let k = r.len();
        let ghost n0 = b@;
        let ghost wk = witness@;
        let ghost r0 = r@;
        let c0 = alloc_elem(b, witness, rounds[k].poly[0], Ghost(base));
        let ghost n1 = b@;
        let ghost w1 = witness@;
        let c_inf = alloc_elem(b, witness, rounds[k].poly[1], Ghost(base));
        let ghost n2 = b@;
        let ghost w2 = witness@;
        let w = alloc_witness(b, witness, pow_bits > 0, rounds[k].pow_witness, Ghost(base));
        let m = SumcheckInputs { c0, c_inf, witness: w };
        r.push(m);
        proof {
            lemma_grew_trans(n0, wk, n1, w1, n2, w2, base);
            lemma_grew_trans(n0, wk, n2, w2, b@, witness@, base);
            lemma_grew_trans(n1, w1, n2, w2, b@, witness@, base);
            lemma_grew_trans(first, w0, n0, wk, b@, witness@, base);
            assert forall|i: int| 0 <= i < r@.len() implies (#[trigger] r@[i]).wf(
                pow_bits > 0,
                b@.next,
            ) by {
                if i < k {
                    assert(r@[i] == r0[i]);
                    assert(r0[i].wf(pow_bits > 0, n0.next));
                }
            }
            assert forall|env: Env, i: int, fallback: SumcheckM|
                0 <= i < r@.len() implies #[trigger] r@[i].message(b@, env, fallback)
                == wire_layout::sumcheck_message(
                env,
                first.next + wire_layout::sumcheck_size(i, pow_bits > 0),
                pow_bits > 0,
                fallback,
            ) by {
                if i < k {
                    assert(r@[i] == r0[i]);
                    assert(r0[i].wf(pow_bits > 0, n0.next));
                    assert(r0[i].message(b@, env, fallback) == r0[i].message(n0, env, fallback));
                } else {
                    assert(netlist::bits(b@, env, c0@) == netlist::bits(n1, env, c0@));
                    assert(netlist::bits(b@, env, c_inf@) == netlist::bits(n2, env, c_inf@));
                    assert(optional(b@, env, w, fallback.witness) == wire_layout::optional(
                        env,
                        n2.next as int,
                        pow_bits > 0,
                        fallback.witness,
                    ));
                }
            }
            assert forall|env: Env, i: int|
                carried(env, base, witness@) && 0 <= i < r@.len() implies (
            #[trigger] r@[i].message(b@, env, want[i])) == want[i] by {
                lemma_carried_prefix(n2, w2, b@, witness@, base, env);
                lemma_carried_prefix(n1, w1, b@, witness@, base, env);
                lemma_carried_prefix(n0, wk, b@, witness@, base, env);
                if i < k {
                    assert(r@[i] == r0[i]);
                    assert(r0[i].wf(pow_bits > 0, n0.next));
                    assert(r0[i].message(n0, env, want[i]) == want[i]);
                } else {
                    assert(netlist::bits(n1, env, c0@) == want[i].c0);
                    assert(netlist::bits(b@, env, c0@) == want[i].c0);
                    assert(netlist::bits(n2, env, c_inf@) == want[i].c_inf);
                    assert(netlist::bits(b@, env, c_inf@) == want[i].c_inf);
                    assert(optional(b@, env, w, want[i].witness) == want[i].witness);
                }
            }
        }
    }
    proof {
        assert forall|env: Env, fallback: Seq<SumcheckM>| #[trigger]
            sumcheck_messages(r@, b@, env, fallback) == wire_layout::sumcheck(
                env,
                first.next as int,
                rounds@.len(),
                pow_bits > 0,
                fallback,
            ) by {
            let got = sumcheck_messages(r@, b@, env, fallback);
            let all = wire_layout::sumcheck(
                env,
                first.next as int,
                rounds@.len(),
                pow_bits > 0,
                fallback,
            );
            assert forall|i: int| 0 <= i < got.len() implies got[i] == all[i] by {
                assert(r@[i].message(b@, env, fallback[i]) == all[i]);
            }
            assert(got =~= all);
        }
        assert forall|env: Env| carried(env, base, witness@) implies #[trigger] sumcheck_messages(
            r@,
            b@,
            env,
            want,
        ) == want by {
            assert forall|i: int| 0 <= i < r@.len() implies sumcheck_messages(
                r@,
                b@,
                env,
                want,
            )[i] == want[i] by {
                assert(r@[i].message(b@, env, want[i]) == want[i]);
            }
            assert(sumcheck_messages(r@, b@, env, want) =~= want);
        }
    }
    r
}

/// The sibling digests of one path.
fn alloc_path<T: ValuedBuilder>(
    b: &mut T,
    witness: &mut Vec<bool>,
    digests: &Vec<Digest>,
    Ghost(base): Ghost<nat>,
) -> (r: Vec<Vec<usize>>)
    requires
        old(b).inv(),
        old(b)@.next == base + old(witness)@.len(),
    ensures
        final(b).inv(),
        grew(old(b)@, old(witness)@, final(b)@, final(witness)@, base),
        r@.len() == digests@.len(),
        netlist::all_below(r@, 256, final(b)@.next),
        final(b)@.next == old(b)@.next + 256 * digests@.len(),
        forall|env: Env| #[trigger]
            path_bytes(final(b)@, env, r@) == wire_layout::path(
                env,
                old(b)@.next as int,
                digests@.len(),
            ),
        forall|env: Env, l: int|
            carried(env, base, final(witness)@) && 0 <= l < r@.len() ==> (
            #[trigger] wire_sponge::wire_bytes(final(b)@, env, r@[l]@)) == digests@[l]@,
{
    let ghost first = b@;
    let ghost w0 = witness@;
    let mut r: Vec<Vec<usize>> = Vec::new();
    proof {
        lemma_grew_refl(first, w0, base);
    }
    while r.len() < digests.len()
        invariant
            b.inv(),
            r@.len() <= digests@.len(),
            grew(first, w0, b@, witness@, base),
            netlist::all_below(r@, 256, b@.next),
            b@.next == first.next + 256 * r@.len(),
            forall|env: Env, l: int|
                0 <= l < r@.len() ==> #[trigger] wire_sponge::wire_bytes(b@, env, r@[l]@)
                    == wire_layout::byte_string(env, first.next + 256 * l, 32),
            forall|env: Env, l: int|
                carried(env, base, witness@) && 0 <= l < r@.len() ==> (
                #[trigger] wire_sponge::wire_bytes(b@, env, r@[l]@)) == digests@[l]@,
        decreases digests@.len() - r@.len(),
    {
        let k = r.len();
        let ghost c = b@;
        let ghost wk = witness@;
        let ghost r0 = r@;
        let bytes = reference::array_to_vec(&digests[k]);
        let x = alloc_bytes(b, witness, bytes.as_slice(), Ghost(base));
        r.push(x);
        proof {
            lemma_grew_trans(first, w0, c, wk, b@, witness@, base);
            assert forall|env: Env, l: int|
                0 <= l < r@.len() implies #[trigger] wire_sponge::wire_bytes(b@, env, r@[l]@)
                == wire_layout::byte_string(env, first.next + 256 * l, 32) by {
                if l < k {
                    assert(r@[l] == r0[l]);
                    assert(r0[l]@.len() == 256 && netlist::below(r0[l]@, c.next));
                    assert(wire_sponge::wire_bytes(c, env, r0[l]@) == wire_layout::byte_string(
                        env,
                        first.next + 256 * l,
                        32,
                    ));
                }
            }
            assert forall|env: Env, l: int|
                carried(env, base, witness@) && 0 <= l < r@.len() implies (
            #[trigger] wire_sponge::wire_bytes(b@, env, r@[l]@)) == digests@[l]@ by {
                if l < k {
                    assert(r@[l] == r0[l]);
                    lemma_carried_prefix(c, wk, b@, witness@, base, env);
                    assert(r0[l]@.len() == 256 && netlist::below(r0[l]@, c.next));
                    assert(wire_sponge::wire_bytes(c, env, r0[l]@) == digests@[l]@);
                }
            }
        }
    }
    proof {
        assert forall|env: Env| #[trigger]
            path_bytes(b@, env, r@) == wire_layout::path(
                env,
                first.next as int,
                digests@.len(),
            ) by {
            assert(path_bytes(b@, env, r@) =~= wire_layout::path(
                env,
                first.next as int,
                digests@.len(),
            ));
        }
    }
    r
}

proof fn lemma_paths_len(env: Env, start: int, count: nat, depth: nat)
    ensures
        wire_layout::paths(env, start, count, depth).len() == count,
    decreases count,
{
    if count > 0 {
        lemma_paths_len(env, start, (count - 1) as nat, depth);
    }
}

/// A path's digests stay as they are.
proof fn lemma_path_ext(a: Netlist, b: Netlist, env: Env, path: Seq<Vec<usize>>)
    requires
        netlist::ext(a, b),
        netlist::all_below(path, 256, a.next),
    ensures
        path_bytes(b, env, path) == path_bytes(a, env, path),
{
    assert forall|l: int| 0 <= l < path.len() implies path_bytes(b, env, path)[l] == path_bytes(
        a,
        env,
        path,
    )[l] by {
        assert(path[l]@.len() == 256 && netlist::below(path[l]@, a.next));
    }
    assert(path_bytes(b, env, path) =~= path_bytes(a, env, path));
}

/// The paths of an opening's queries.
fn alloc_paths<T: ValuedBuilder>(
    b: &mut T,
    witness: &mut Vec<bool>,
    paths: &Vec<merkle::Path<Digest>>,
    depth: usize,
    Ghost(base): Ghost<nat>,
) -> (r: Vec<Vec<Vec<usize>>>)
    requires
        old(b).inv(),
        old(b)@.next == base + old(witness)@.len(),
        forall|q: int| 0 <= q < paths@.len() ==> (#[trigger] paths@[q]).siblings@.len() == depth,
    ensures
        final(b).inv(),
        grew(old(b)@, old(witness)@, final(b)@, final(witness)@, base),
        r@.len() == paths@.len(),
        final(b)@.next == old(b)@.next + wire_layout::paths_size(paths@.len(), depth as nat),
        forall|env: Env, q: int|
            0 <= q < r@.len() ==> #[trigger] path_bytes(final(b)@, env, r@[q]@)
                == wire_layout::paths(
                env,
                old(b)@.next as int,
                paths@.len(),
                depth as nat,
            )[q],
        forall|q: int|
            0 <= q < r@.len() ==> (#[trigger] r@[q])@.len() == depth && netlist::all_below(
                r@[q]@,
                256,
                final(b)@.next,
            ),
        forall|env: Env, q: int, l: int|
            carried(env, base, final(witness)@) && 0 <= q < r@.len() && 0 <= l < depth ==> (
            #[trigger] wire_sponge::wire_bytes(final(b)@, env, r@[q]@[l]@))
                == paths@[q].siblings@[l]@,
{
    let ghost first = b@;
    let ghost w0 = witness@;
    let mut r: Vec<Vec<Vec<usize>>> = Vec::new();
    proof {
        lemma_grew_refl(first, w0, base);
    }
    while r.len() < paths.len()
        invariant
            b.inv(),
            r@.len() <= paths@.len(),
            forall|q: int|
                0 <= q < paths@.len() ==> (#[trigger] paths@[q]).siblings@.len() == depth,
            grew(first, w0, b@, witness@, base),
            b@.next == first.next + wire_layout::paths_size(r@.len(), depth as nat),
            forall|env: Env, q: int|
                0 <= q < r@.len() ==> #[trigger] path_bytes(b@, env, r@[q]@)
                    == wire_layout::paths(env, first.next as int, r@.len(), depth as nat)[q],
            forall|q: int|
                0 <= q < r@.len() ==> (#[trigger] r@[q])@.len() == depth && netlist::all_below(
                    r@[q]@,
                    256,
                    b@.next,
                ),
            forall|env: Env, q: int, l: int|
                carried(env, base, witness@) && 0 <= q < r@.len() && 0 <= l < depth ==> (
                #[trigger] wire_sponge::wire_bytes(b@, env, r@[q]@[l]@))
                    == paths@[q].siblings@[l]@,
        decreases paths@.len() - r@.len(),
    {
        let k = r.len();
        let ghost c = b@;
        let ghost wk = witness@;
        let ghost r0 = r@;
        assert(paths@[k as int].siblings@.len() == depth);
        let x = alloc_path(b, witness, &paths[k].siblings, Ghost(base));
        r.push(x);
        proof {
            lemma_grew_trans(first, w0, c, wk, b@, witness@, base);
            assert forall|env: Env, q: int|
                0 <= q < r@.len() implies #[trigger] path_bytes(b@, env, r@[q]@)
                == wire_layout::paths(env, first.next as int, r@.len(), depth as nat)[q] by {
                let before = wire_layout::paths(env, first.next as int, k as nat, depth as nat);
                lemma_paths_len(env, first.next as int, k as nat, depth as nat);
                if q < k {
                    assert(r@[q] == r0[q]);
                    assert(r0[q]@.len() == depth && netlist::all_below(r0[q]@, 256, c.next));
                    assert(path_bytes(c, env, r0[q]@) == before[q]);
                    lemma_path_ext(c, b@, env, r0[q]@);
                }
            }
            assert forall|q: int| 0 <= q < r@.len() implies (#[trigger] r@[q])@.len() == depth
                && netlist::all_below(r@[q]@, 256, b@.next) by {
                if q < k {
                    assert(r@[q] == r0[q]);
                    assert(netlist::all_below(r0[q]@, 256, c.next));
                }
            }
            assert forall|env: Env, q: int, l: int|
                carried(env, base, witness@) && 0 <= q < r@.len() && 0 <= l < depth implies (
            #[trigger] wire_sponge::wire_bytes(b@, env, r@[q]@[l]@))
                == paths@[q].siblings@[l]@ by {
                if q < k {
                    assert(r@[q] == r0[q]);
                    lemma_carried_prefix(c, wk, b@, witness@, base, env);
                    assert(r0[q]@.len() == depth && netlist::all_below(r0[q]@, 256, c.next));
                    assert(r0[q]@[l]@.len() == 256 && netlist::below(r0[q]@[l]@, c.next));
                    assert(wire_sponge::wire_bytes(c, env, r0[q]@[l]@)
                        == paths@[q].siblings@[l]@);
                }
            }
        }
    }
    r
}

/// Rows and full sibling paths: the pruned opening expanded outside the
/// circuit, which is sound, since a path is a hint and the root is not.
fn alloc_opening<T: ValuedBuilder>(
    b: &mut T,
    witness: &mut Vec<bool>,
    o: &Opening,
    indices: &[usize],
    index_width: usize,
    cap: &[u8],
    Ghost(base): Ghost<nat>,
) -> (r: OpeningInputs)
    requires
        old(b).inv(),
        old(b)@.next == base + old(witness)@.len(),
        reference::opening_well_formed(*o, cap@, indices@, index_width as nat),
        protocol::cap_shaped(cap@, index_width as nat),
    ensures
        final(b).inv(),
        grew(old(b)@, old(witness)@, final(b)@, final(witness)@, base),
        r.wf(protocol::path_depth(cap@, index_width as nat), final(b)@.next),
        rows_shaped(r.rows@, o.rows@),
        final(b)@.next == old(b)@.next + wire_layout::opening_size(
            wire_layout::lens(o.rows@),
            protocol::path_depth(cap@, index_width as nat),
        ),
        forall|env: Env| #[trigger]
            r.rows_at(final(b)@, env) == wire_layout::rows(
                env,
                old(b)@.next as int,
                wire_layout::lens(o.rows@),
            ),
        forall|env: Env| #[trigger]
            r.paths_at(final(b)@, env) == wire_layout::paths(
                env,
                old(b)@.next as int + wire_layout::rows_size(wire_layout::lens(o.rows@)),
                o.rows@.len(),
                protocol::path_depth(cap@, index_width as nat),
            ),
        forall|env: Env|
            carried(env, base, final(witness)@) ==> #[trigger] r.rows_at(final(b)@, env)
                == reference::elts2(o.rows@),
        forall|env: Env|
            carried(env, base, final(witness)@) ==> #[trigger] r.paths_at(final(b)@, env)
                == reference::opening_paths(*o, cap@, indices@, index_width as nat),
{
    let height = reference::floor_log2(cap.len() / 32);
    let depth = index_width - height;
    let ghost models = reference::leaf_digests(reference::elts2(o.rows@));
    let mut leaves: Vec<Digest> = Vec::new();
    while leaves.len() < o.rows.len()
        invariant
            leaves@.len() <= o.rows@.len(),
            models == reference::leaf_digests(reference::elts2(o.rows@)),
            forall|i: int| 0 <= i < leaves@.len() ==> (#[trigger] leaves@[i])@ == models[i],
        decreases o.rows@.len() - leaves@.len(),
    {
        let k = leaves.len();
        let d = reference::leaf(o.rows[k].as_slice());
        assert(d@ == models[k as int]);
        leaves.push(d);
    }
    let expanded = pruned::expand(
        o.boundaries.as_slice(),
        indices,
        leaves.as_slice(),
        index_width,
        height,
    );
    proof {
        assert(merkle::models::<Blake3Tree>(leaves@) =~= models);
        assert(merkle::models::<Blake3Tree>(o.boundaries@) =~= reference::digest_bytes(
            o.boundaries@,
        ));
        assert(expanded is Ok);
    }
    let paths = expanded.unwrap();
    let ghost b0 = b@;
    let ghost w0 = witness@;
    let rows = alloc_rows(b, witness, &o.rows, Ghost(base));
    let ghost b1 = b@;
    let ghost w1 = witness@;
    let siblings = alloc_paths(b, witness, &paths, depth, Ghost(base));
    let r = OpeningInputs { rows, siblings };
    proof {
        lemma_grew_trans(b0, w0, b1, w1, b@, witness@, base);
        assert forall|i: int| 0 <= i < r.rows@.len() implies elems_ok(
            #[trigger] r.rows@[i]@,
            b@.next,
        ) by {
            assert(elems_ok(rows@[i]@, b1.next));
        }
        let want = reference::opening_paths(*o, cap@, indices@, index_width as nat);
        let lens = wire_layout::lens(o.rows@);
        assert forall|env: Env| #[trigger]
            r.rows_at(b@, env) == wire_layout::rows(env, b0.next as int, lens) by {
            lemma_grids_ext(b1, b@, env, rows@);
            assert(grids(b1, env, rows@) == wire_layout::rows(env, b0.next as int, lens));
        }
        assert forall|env: Env| #[trigger]
            r.paths_at(b@, env) == wire_layout::paths(
                env,
                b1.next as int,
                o.rows@.len(),
                depth as nat,
            ) by {
            let got = r.paths_at(b@, env);
            let all = wire_layout::paths(env, b1.next as int, o.rows@.len(), depth as nat);
            lemma_paths_len(env, b1.next as int, o.rows@.len(), depth as nat);
            assert forall|q: int| 0 <= q < got.len() implies got[q] == all[q] by {
                assert(path_bytes(b@, env, siblings@[q]@) == all[q]);
            }
            assert(got =~= all);
        }
        assert forall|env: Env| carried(env, base, witness@) implies #[trigger] r.rows_at(
            b@,
            env,
        ) == reference::elts2(o.rows@) by {
            lemma_carried_prefix(b1, w1, b@, witness@, base, env);
            assert(grids(b1, env, rows@) == reference::elts2(o.rows@));
            lemma_grids_ext(b1, b@, env, rows@);
        }
        assert forall|env: Env| carried(env, base, witness@) implies #[trigger] r.paths_at(
            b@,
            env,
        ) == want by {
            let got = r.paths_at(b@, env);
            assert forall|q: int| 0 <= q < got.len() implies got[q] == want[q] by {
                assert forall|l: int| 0 <= l < depth implies got[q][l] == want[q][l] by {
                    assert(wire_sponge::wire_bytes(b@, env, r.siblings@[q]@[l]@)
                        == paths@[q].siblings@[l]@);
                    assert(Blake3Tree::model(paths@[q].siblings@[l]) == want[q][l]);
                }
                assert(got[q] =~= want[q]);
            }
            assert(got =~= want);
        }
    }
    r
}

/// The sizes of a round's messages.
pub open spec fn round_shape(rc: RoundConfig, rd: RoundData, depth: nat) -> wire_layout::RoundShape {
    wire_layout::RoundShape {
        cap: rd.cap@.len(),
        ood_answers: rd.ood_answers@.len(),
        grinds: rc.pow_bits > 0,
        sumcheck: rd.sumcheck@.len(),
        folding_grinds: rc.folding_pow_bits > 0,
        rows: wire_layout::lens(rd.opening.rows@),
        depth,
    }
}

/// One round's messages and its opening of the previous commitment.
fn alloc_round<T: ValuedBuilder>(
    b: &mut T,
    witness: &mut Vec<bool>,
    rc: &RoundConfig,
    rd: &RoundData,
    queries: &[usize],
    cap: &[u8],
    Ghost(base): Ghost<nat>,
) -> (r: RoundInputs)
    requires
        old(b).inv(),
        old(b)@.next == base + old(witness)@.len(),
        reference::opening_well_formed(rd.opening, cap@, queries@, rc.index_width as nat),
        protocol::cap_shaped(cap@, rc.index_width as nat),
    ensures
        final(b).inv(),
        grew(old(b)@, old(witness)@, final(b)@, final(witness)@, base),
        r.wf(
            rc.pow_bits > 0,
            rc.folding_pow_bits > 0,
            rd.cap@.len(),
            protocol::path_depth(cap@, rc.index_width as nat),
            final(b)@.next,
        ),
        r.ood_answers@.len() == rd.ood_answers@.len(),
        r.sumcheck@.len() == rd.sumcheck@.len(),
        rows_shaped(r.opening.rows@, rd.opening.rows@),
        ({
            let s = round_shape(*rc, *rd, protocol::path_depth(cap@, rc.index_width as nat));
            let start = old(b)@.next as int;
            &&& final(b)@.next == start + wire_layout::round_size(s)
            &&& forall|env: Env, fallback: RoundM| #[trigger]
                r.messages(final(b)@, env, fallback) == wire_layout::round(
                    env,
                    start,
                    s,
                    fallback,
                )
            &&& forall|env: Env| #[trigger]
                r.opening.paths_at(final(b)@, env) == wire_layout::paths(
                    env,
                    start + wire_layout::round_head(s) + wire_layout::rows_size(s.rows),
                    s.rows.len(),
                    s.depth,
                )
        }),
        forall|env: Env|
            carried(env, base, final(witness)@) ==> #[trigger] r.messages(
                final(b)@,
                env,
                rd.messages(),
            ) == rd.messages(),
        forall|env: Env|
            carried(env, base, final(witness)@) ==> #[trigger] r.opening.paths_at(final(b)@, env)
                == reference::opening_paths(rd.opening, cap@, queries@, rc.index_width as nat),
{
    let ghost b0 = b@;
    let ghost w0 = witness@;
    let root = alloc_bytes(b, witness, rd.cap.as_slice(), Ghost(base));
    let ghost b1 = b@;
    let ghost w1 = witness@;
    let ood_answers = alloc_elems(b, witness, rd.ood_answers.as_slice(), Ghost(base));
    let ghost b2 = b@;
    let ghost w2 = witness@;
    let pow_witness = alloc_witness(b, witness, rc.pow_bits > 0, rd.pow_witness, Ghost(base));
    let ghost b3 = b@;
    let ghost w3 = witness@;
    let sumcheck = alloc_sumcheck(
        b,
        witness,
        rd.sumcheck.as_slice(),
        rc.folding_pow_bits,
        Ghost(base),
    );
    let ghost b4 = b@;
    let ghost w4 = witness@;
    let opening = alloc_opening(
        b,
        witness,
        &rd.opening,
        queries,
        rc.index_width,
        cap,
        Ghost(base),
    );
    let r = RoundInputs { root, ood_answers, pow_witness, sumcheck, opening };
    proof {
        lemma_grew_trans(b3, w3, b4, w4, b@, witness@, base);
        lemma_grew_trans(b2, w2, b3, w3, b@, witness@, base);
        lemma_grew_trans(b1, w1, b2, w2, b@, witness@, base);
        lemma_grew_trans(b0, w0, b1, w1, b@, witness@, base);
        assert forall|i: int| 0 <= i < r.sumcheck@.len() implies (#[trigger] r.sumcheck@[i]).wf(
            rc.folding_pow_bits > 0,
            b@.next,
        ) by {
            assert(sumcheck@[i].wf(rc.folding_pow_bits > 0, b4.next));
        }
        let shape = round_shape(*rc, *rd, protocol::path_depth(cap@, rc.index_width as nat));
        assert forall|env: Env, fallback: RoundM| #[trigger]
            r.messages(b@, env, fallback) == wire_layout::round(
                env,
                b0.next as int,
                shape,
                fallback,
            ) by {
            assert(wire_sponge::wire_bytes(b@, env, root@) == wire_sponge::wire_bytes(
                b1,
                env,
                root@,
            ));
            assert(netlist::words(b@, env, ood_answers@) == netlist::words(
                b2,
                env,
                ood_answers@,
            ));
            assert(optional(b@, env, pow_witness, fallback.pow_witness) == optional(
                b3,
                env,
                pow_witness,
                fallback.pow_witness,
            ));
            lemma_sumcheck_ext(
                b4,
                b@,
                env,
                sumcheck@,
                rc.folding_pow_bits > 0,
                fallback.sumcheck,
            );
            assert(r.opening.rows_at(b@, env) == wire_layout::rows(
                env,
                b4.next as int,
                shape.rows,
            ));
        }
        let m = rd.messages();
        assert forall|env: Env| carried(env, base, witness@) implies #[trigger] r.messages(
            b@,
            env,
            m,
        ) == m by {
            lemma_carried_prefix(b1, w1, b@, witness@, base, env);
            lemma_carried_prefix(b2, w2, b@, witness@, base, env);
            lemma_carried_prefix(b3, w3, b@, witness@, base, env);
            lemma_carried_prefix(b4, w4, b@, witness@, base, env);
            assert(wire_sponge::wire_bytes(b1, env, root@) == m.cap);
            assert(wire_sponge::wire_bytes(b@, env, root@) == m.cap);
            assert(netlist::words(b2, env, ood_answers@) == m.ood_answers);
            assert(netlist::words(b@, env, ood_answers@) == m.ood_answers);
            assert(optional(b3, env, pow_witness, m.pow_witness) == m.pow_witness);
            assert(optional(b@, env, pow_witness, m.pow_witness) == m.pow_witness);
            assert(sumcheck_messages(sumcheck@, b4, env, m.sumcheck) == m.sumcheck);
            lemma_sumcheck_ext(
                b4,
                b@,
                env,
                sumcheck@,
                rc.folding_pow_bits > 0,
                m.sumcheck,
            );
            assert(r.opening.rows_at(b@, env) == m.rows);
        }
    }
    r
}

/// Every pruned opening can be expanded, along caps that hold a power of two
/// of roots.
pub open spec fn expandable(cfg: Config, d: Data, ch: Challenges) -> bool {
    &&& d.rounds@.len() == cfg.rounds@.len()
    &&& ch.rounds@.len() == cfg.rounds@.len()
    &&& forall|i: nat|
        i <= d.rounds@.len() ==> #[trigger] reference::round_well_formed(cfg, d, ch, i)
    &&& forall|i: nat|
        i <= d.rounds@.len() ==> protocol::cap_shaped(
            #[trigger] protocol::cap_before(d.messages(), i),
            protocol::width_of(cfg, i),
        )
}

/// The paths of round `i`, among rounds that start at `start`.
pub open spec fn laid_paths(
    env: Env,
    start: int,
    shapes: Seq<wire_layout::RoundShape>,
    i: int,
) -> Paths {
    let s = shapes[i];
    wire_layout::paths(
        env,
        wire_layout::round_start(start, shapes, i) + wire_layout::round_head(s)
            + wire_layout::rows_size(s.rows),
        s.rows.len(),
        s.depth,
    )
}

/// The rounds stand one after the other from `start` on.
pub open spec fn rounds_laid(
    rounds: Seq<RoundInputs>,
    shapes: Seq<wire_layout::RoundShape>,
    start: int,
    c: Netlist,
) -> bool {
    &&& forall|env: Env, i: int, fallback: RoundM|
        0 <= i < rounds.len() ==> #[trigger] rounds[i].messages(c, env, fallback)
            == wire_layout::round(
            env,
            wire_layout::round_start(start, shapes, i),
            shapes[i],
            fallback,
        )
    &&& forall|env: Env, i: int|
        0 <= i < rounds.len() ==> #[trigger] rounds[i].opening.paths_at(c, env) == laid_paths(
            env,
            start,
            shapes,
            i,
        )
}

/// The rounds' inputs.
fn alloc_rounds<T: ValuedBuilder>(
    b: &mut T,
    witness: &mut Vec<bool>,
    cfg: &Config,
    d: &Data,
    ch: &Challenges,
    Ghost(base): Ghost<nat>,
) -> (rounds: Vec<RoundInputs>)
    requires
        old(b).inv(),
        old(b)@.next == base + old(witness)@.len(),
        expandable(*cfg, *d, *ch),
    ensures
        final(b).inv(),
        grew(old(b)@, old(witness)@, final(b)@, final(witness)@, base),
        rounds@.len() == d.rounds@.len(),
        rounds_ok(rounds@, *cfg, *d, final(b)@.next),
        final(b)@.next == old(b)@.next + wire_layout::rounds_size(
            wire_layout::shape_of(*cfg, *d).rounds,
        ),
        rounds_laid(
            rounds@,
            wire_layout::shape_of(*cfg, *d).rounds,
            old(b)@.next as int,
            final(b)@,
        ),
        forall|env: Env, i: int|
            carried(env, base, final(witness)@) && 0 <= i < rounds@.len()
                ==> #[trigger] round_carried(rounds@[i], *cfg, *d, *ch, i, final(b)@, env),
{
    let ghost b0 = b@;
    let ghost w0 = witness@;
    let ghost shapes = wire_layout::shape_of(*cfg, *d).rounds;
    let mut rounds: Vec<RoundInputs> = Vec::new();
    proof {
        lemma_grew_refl(b0, w0, base);
        assert(shapes.take(0) =~= Seq::<wire_layout::RoundShape>::empty());
    }
    while rounds.len() < d.rounds.len()
        invariant
            b.inv(),
            expandable(*cfg, *d, *ch),
            rounds@.len() <= d.rounds@.len(),
            grew(b0, w0, b@, witness@, base),
            rounds_ok(rounds@, *cfg, *d, b@.next),
            shapes == wire_layout::shape_of(*cfg, *d).rounds,
            b@.next == b0.next + wire_layout::rounds_size(shapes.take(rounds@.len() as int)),
            rounds_laid(rounds@, shapes, b0.next as int, b@),
            forall|env: Env, i: int|
                carried(env, base, witness@) && 0 <= i < rounds@.len()
                    ==> #[trigger] round_carried(rounds@[i], *cfg, *d, *ch, i, b@, env),
        decreases d.rounds@.len() - rounds@.len(),
    {
        let k = rounds.len();
        let ghost c = b@;
        let ghost wk = witness@;
        let ghost r0 = rounds@;
        proof {
            assert(reference::round_well_formed(*cfg, *d, *ch, k as nat));
            assert(protocol::cap_shaped(
                protocol::cap_before(d.messages(), k as nat),
                protocol::width_of(*cfg, k as nat),
            ));
        }
        let cap = if k == 0 {
            d.cap.as_slice()
        } else {
            d.rounds[k - 1].cap.as_slice()
        };
        let r = alloc_round(
            b,
            witness,
            &cfg.rounds[k],
            &d.rounds[k],
            ch.rounds[k].queries.as_slice(),
            cap,
            Ghost(base),
        );
        rounds.push(r);
        proof {
            lemma_grew_trans(b0, w0, c, wk, b@, witness@, base);
            assert(shapes.take(k + 1).drop_last() =~= shapes.take(k as int));
            assert(shapes.take(k + 1).last() == shapes[k as int]);
            assert forall|env: Env, i: int, fallback: RoundM|
                0 <= i < rounds@.len() implies #[trigger] rounds@[i].messages(b@, env, fallback)
                == wire_layout::round(
                env,
                wire_layout::round_start(b0.next as int, shapes, i),
                shapes[i],
                fallback,
            ) by {
                if i < k {
                    assert(rounds@[i] == r0[i]);
                    assert(round_ok(r0[i], *cfg, *d, i, c.next));
                    lemma_round_ext(c, b@, env, r0[i], *cfg, *d, i);
                    assert(r0[i].messages(b@, env, fallback) == r0[i].messages(
                        c,
                        env,
                        fallback,
                    ));
                }
            }
            assert forall|env: Env, i: int|
                0 <= i < rounds@.len() implies #[trigger] rounds@[i].opening.paths_at(b@, env)
                == laid_paths(env, b0.next as int, shapes, i) by {
                if i < k {
                    assert(rounds@[i] == r0[i]);
                    assert(round_ok(r0[i], *cfg, *d, i, c.next));
                    lemma_round_ext(c, b@, env, r0[i], *cfg, *d, i);
                    assert(r0[i].opening.paths_at(c, env) == laid_paths(
                        env,
                        b0.next as int,
                        shapes,
                        i,
                    ));
                }
            }
            assert forall|i: int| 0 <= i < rounds@.len() implies #[trigger] round_ok(
                rounds@[i],
                *cfg,
                *d,
                i,
                b@.next,
            ) by {
                if i < k {
                    assert(rounds@[i] == r0[i]);
                    lemma_round_ok(r0[i], *cfg, *d, i, c.next, b@.next);
                }
            }
            assert forall|env: Env, i: int|
                carried(env, base, witness@) && 0 <= i < rounds@.len()
                    implies #[trigger] round_carried(
                rounds@[i],
                *cfg,
                *d,
                *ch,
                i,
                b@,
                env,
            ) by {
                if i < k {
                    assert(rounds@[i] == r0[i]);
                    lemma_carried_prefix(c, wk, b@, witness@, base, env);
                    assert(round_ok(r0[i], *cfg, *d, i, c.next));
                    assert(round_carried(r0[i], *cfg, *d, *ch, i, c, env));
                    lemma_round_ext(c, b@, env, r0[i], *cfg, *d, i);
                } else {
                    assert(r.messages(b@, env, d.rounds@[i].messages())
                        == d.rounds@[i].messages());
                }
            }
        }
    }
    assert(shapes.take(rounds@.len() as int) =~= shapes);
    rounds
}

impl Inputs {
    /// Lay out the proof: every message in transcript order, each round's
    /// opening after its messages, and the final opening last.
    pub fn allocate<T: ValuedBuilder>(b: &mut T, cfg: &Config, d: &Data, ch: &Challenges) -> (me:
        Self)
        requires
            old(b).inv(),
            expandable(*cfg, *d, *ch),
        ensures
            final(b).inv(),
            grew(old(b)@, Seq::empty(), final(b)@, me.witness@, old(b)@.next),
            me.wf(*cfg, *d, final(b)@.next),
            me.witness@.len() == wire_layout::size(wire_layout::shape_of(*cfg, *d)),
            forall|env: Env, fallback: ProofM| #[trigger]
                me.messages(final(b)@, env, fallback) == wire_layout::messages(
                    env,
                    old(b)@.next as int,
                    wire_layout::shape_of(*cfg, *d),
                    fallback,
                ),
            forall|env: Env| #[trigger]
                me.authentications(final(b)@, env) == wire_layout::authentications(
                    env,
                    old(b)@.next as int,
                    wire_layout::shape_of(*cfg, *d),
                ),
            forall|env: Env|
                carried(env, old(b)@.next, me.witness@) ==> #[trigger] me.messages(
                    final(b)@,
                    env,
                    d.messages(),
                ) == d.messages(),
            forall|env: Env|
                carried(env, old(b)@.next, me.witness@) ==> #[trigger] me.authentications(
                    final(b)@,
                    env,
                ) == reference::authentications(*cfg, *d, *ch),
    {
        let ghost base = b@.next;
        let mut witness: Vec<bool> = Vec::new();
        let ghost b0 = b@;
        let ghost w0 = witness@;
        assert(w0 =~= Seq::<bool>::empty());
        let root = alloc_bytes(b, &mut witness, d.cap.as_slice(), Ghost(base));
        let ghost b1 = b@;
        let ghost w1 = witness@;
        let initial_ood_answers = alloc_elems(
            b,
            &mut witness,
            d.initial_ood_answers.as_slice(),
            Ghost(base),
        );
        let ghost b2 = b@;
        let ghost w2 = witness@;
        let openings = alloc_rows(b, &mut witness, &d.openings, Ghost(base));
        let ghost b3 = b@;
        let ghost w3 = witness@;
        let initial_sumcheck = alloc_sumcheck(
            b,
            &mut witness,
            d.initial_sumcheck.as_slice(),
            cfg.initial_folding_pow_bits,
            Ghost(base),
        );
        let ghost b4 = b@;
        let ghost w4 = witness@;
        let rounds = alloc_rounds(b, &mut witness, cfg, d, ch, Ghost(base));
        let ghost b5 = b@;
        let ghost w5 = witness@;
        let final_poly = alloc_elems(b, &mut witness, d.final_poly.as_slice(), Ghost(base));
        let ghost b6 = b@;
        let ghost w6 = witness@;
        let final_pow_witness = alloc_witness(
            b,
            &mut witness,
            cfg.final_pow_bits > 0,
            d.final_pow_witness,
            Ghost(base),
        );
        let ghost b7 = b@;
        let ghost w7 = witness@;
        let final_sumcheck = alloc_sumcheck(
            b,
            &mut witness,
            d.final_sumcheck.as_slice(),
            cfg.final_folding_pow_bits,
            Ghost(base),
        );
        let ghost b8 = b@;
        let ghost w8 = witness@;
        let n = d.rounds.len();
        proof {
            assert(reference::round_well_formed(*cfg, *d, *ch, n as nat));
            assert(protocol::cap_shaped(
                protocol::cap_before(d.messages(), n as nat),
                protocol::width_of(*cfg, n as nat),
            ));
        }
        let cap = if n == 0 {
            d.cap.as_slice()
        } else {
            d.rounds[n - 1].cap.as_slice()
        };
        let final_opening = alloc_opening(
            b,
            &mut witness,
            &d.final_opening,
            ch.final_queries.as_slice(),
            cfg.final_index_width,
            cap,
            Ghost(base),
        );
        let me = Inputs {
            root,
            initial_ood_answers,
            openings,
            initial_sumcheck,
            rounds,
            final_poly,
            final_pow_witness,
            final_sumcheck,
            final_opening,
            witness,
        };
        proof {
            let c = b@;
            let w = me.witness@;
            lemma_grew_trans(b7, w7, b8, w8, c, w, base);
            lemma_grew_trans(b6, w6, b7, w7, c, w, base);
            lemma_grew_trans(b5, w5, b6, w6, c, w, base);
            lemma_grew_trans(b4, w4, b5, w5, c, w, base);
            lemma_grew_trans(b3, w3, b4, w4, c, w, base);
            lemma_grew_trans(b2, w2, b3, w3, c, w, base);
            lemma_grew_trans(b1, w1, b2, w2, c, w, base);
            lemma_grew_trans(b0, w0, b1, w1, c, w, base);
            lemma_grids_ok(openings@, b3.next, c.next);
            lemma_sumcheck_ok(
                initial_sumcheck@,
                cfg.initial_folding_pow_bits > 0,
                b4.next,
                c.next,
            );
            lemma_sumcheck_ok(
                final_sumcheck@,
                cfg.final_folding_pow_bits > 0,
                b8.next,
                c.next,
            );
            assert forall|i: int| 0 <= i < rounds@.len() implies #[trigger] round_ok(
                rounds@[i],
                *cfg,
                *d,
                i,
                c.next,
            ) by {
                assert(round_ok(rounds@[i], *cfg, *d, i, b5.next));
                lemma_round_ok(rounds@[i], *cfg, *d, i, b5.next, c.next);
            }
            let shape = wire_layout::shape_of(*cfg, *d);
            let start = base as int;
            assert(b4.next == start + wire_layout::head_size(shape));
            assert(b8.next == b5.next + wire_layout::tail_size(shape));
            assert forall|env: Env, fallback: ProofM| #[trigger]
                me.messages(c, env, fallback) == wire_layout::messages(
                    env,
                    start,
                    shape,
                    fallback,
                ) by {
                let g = me.messages(c, env, fallback);
                let want = wire_layout::messages(env, start, shape, fallback);
                assert(wire_sponge::wire_bytes(c, env, root@) == wire_sponge::wire_bytes(
                    b1,
                    env,
                    root@,
                ));
                assert(netlist::words(c, env, initial_ood_answers@) == netlist::words(
                    b2,
                    env,
                    initial_ood_answers@,
                ));
                lemma_grids_ext(b3, c, env, openings@);
                lemma_sumcheck_ext(
                    b4,
                    c,
                    env,
                    initial_sumcheck@,
                    cfg.initial_folding_pow_bits > 0,
                    fallback.initial_sumcheck,
                );
                assert forall|i: int| 0 <= i < g.rounds.len() implies g.rounds[i]
                    == want.rounds[i] by {
                    assert(round_ok(rounds@[i], *cfg, *d, i, b5.next));
                    lemma_round_ext(b5, c, env, rounds@[i], *cfg, *d, i);
                    assert(rounds@[i].messages(c, env, fallback.rounds[i])
                        == rounds@[i].messages(b5, env, fallback.rounds[i]));
                }
                assert(g.rounds =~= want.rounds);
                assert(netlist::words(c, env, final_poly@) == netlist::words(
                    b6,
                    env,
                    final_poly@,
                ));
                assert(optional(c, env, final_pow_witness, fallback.final_pow_witness)
                    == optional(b7, env, final_pow_witness, fallback.final_pow_witness));
                lemma_sumcheck_ext(
                    b8,
                    c,
                    env,
                    final_sumcheck@,
                    cfg.final_folding_pow_bits > 0,
                    fallback.final_sumcheck,
                );
                assert(final_opening.rows_at(c, env) == want.final_rows);
            }
            assert forall|env: Env| #[trigger]
                me.authentications(c, env) == wire_layout::authentications(
                    env,
                    start,
                    shape,
                ) by {
                let got = me.authentications(c, env);
                let want = wire_layout::authentications(env, start, shape);
                assert forall|i: int| 0 <= i < got.len() implies got[i] == want[i] by {
                    if i < n {
                        assert(round_ok(rounds@[i], *cfg, *d, i, b5.next));
                        lemma_round_ext(b5, c, env, rounds@[i], *cfg, *d, i);
                        let m = d.rounds@[i].messages();
                        assert(rounds@[i].messages(b5, env, m).rows == want[i].rows);
                        assert(rounds@[i].opening.paths_at(b5, env) == laid_paths(
                            env,
                            b4.next as int,
                            shape.rounds,
                            i,
                        ));
                    } else {
                        assert(final_opening.rows_at(c, env) == want[i].rows);
                        assert(final_opening.paths_at(c, env) == want[i].paths);
                    }
                }
                assert(got =~= want);
            }
            let m = d.messages();
            assert forall|env: Env| carried(env, base, w) implies #[trigger] me.messages(
                c,
                env,
                m,
            ) == m by {
                lemma_carried_prefix(b1, w1, c, w, base, env);
                lemma_carried_prefix(b2, w2, c, w, base, env);
                lemma_carried_prefix(b3, w3, c, w, base, env);
                lemma_carried_prefix(b4, w4, c, w, base, env);
                lemma_carried_prefix(b5, w5, c, w, base, env);
                lemma_carried_prefix(b6, w6, c, w, base, env);
                lemma_carried_prefix(b7, w7, c, w, base, env);
                lemma_carried_prefix(b8, w8, c, w, base, env);
                let g = me.messages(c, env, m);
                assert(wire_sponge::wire_bytes(b1, env, root@) == m.cap);
                assert(g.cap == m.cap);
                assert(netlist::words(b2, env, initial_ood_answers@) == m.initial_ood_answers);
                assert(g.initial_ood_answers == m.initial_ood_answers);
                assert(grids(b3, env, openings@) == m.openings);
                lemma_grids_ext(b3, c, env, openings@);
                assert(sumcheck_messages(initial_sumcheck@, b4, env, m.initial_sumcheck)
                    == m.initial_sumcheck);
                lemma_sumcheck_ext(
                    b4,
                    c,
                    env,
                    initial_sumcheck@,
                    cfg.initial_folding_pow_bits > 0,
                    m.initial_sumcheck,
                );
                assert forall|i: int| 0 <= i < g.rounds.len() implies g.rounds[i]
                    == m.rounds[i] by {
                    assert(round_ok(rounds@[i], *cfg, *d, i, b5.next));
                    assert(round_carried(rounds@[i], *cfg, *d, *ch, i, b5, env));
                    lemma_round_ext(b5, c, env, rounds@[i], *cfg, *d, i);
                }
                assert(g.rounds =~= m.rounds);
                assert(netlist::words(b6, env, final_poly@) == m.final_poly);
                assert(g.final_poly == m.final_poly);
                assert(optional(b7, env, final_pow_witness, m.final_pow_witness)
                    == m.final_pow_witness);
                assert(g.final_pow_witness == m.final_pow_witness);
                assert(sumcheck_messages(final_sumcheck@, b8, env, m.final_sumcheck)
                    == m.final_sumcheck);
                lemma_sumcheck_ext(
                    b8,
                    c,
                    env,
                    final_sumcheck@,
                    cfg.final_folding_pow_bits > 0,
                    m.final_sumcheck,
                );
                assert(g.final_rows == m.final_rows);
            }
            let auth = reference::authentications(*cfg, *d, *ch);
            assert forall|env: Env| carried(env, base, w) implies #[trigger] me.authentications(
                c,
                env,
            ) == auth by {
                let got = me.authentications(c, env);
                lemma_carried_prefix(b5, w5, c, w, base, env);
                assert forall|i: int| 0 <= i < got.len() implies got[i] == auth[i] by {
                    if i < n {
                        assert(round_ok(rounds@[i], *cfg, *d, i, b5.next));
                        assert(round_carried(rounds@[i], *cfg, *d, *ch, i, b5, env));
                        lemma_round_ext(b5, c, env, rounds@[i], *cfg, *d, i);
                    } else {
                        assert(final_opening.rows_at(c, env) == auth[i].rows);
                        assert(final_opening.paths_at(c, env) == auth[i].paths);
                    }
                }
                assert(got =~= auth);
            }
        }
        me
    }
}

} // verus!

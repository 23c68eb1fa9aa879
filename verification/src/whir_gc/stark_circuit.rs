//! The multi-STARK layers of [`super::stark`] on wires: the zerocheck, the
//! column batching and the bit ring switch, run as the layer in front of the
//! WHIR circuit through [`super::circuit::build_with_prefix`].
//!
//! Two of the plain verifier's branches on the data are fixed here and guarded
//! by checks instead: the zerocheck's `tau` draws are taken as `n` samples that
//! must each be nonzero (the plain verifier redraws a zero), and the ring
//! switch's Boolean prefix is taken as empty (the plain verifier would fix a
//! column-point coordinate that is exactly 0 or 1). Both make the circuit
//! reject where the plain verifier would continue, never the reverse.
use super::circuit;
use super::circuit::{Handover, Prefix, PrefixOut};
use super::field;
use super::field::{Elt, F};
use super::garble;
use super::garble::Garbled;
use super::gates;
use super::gates::{CircuitTrait, ValuedBuilder};
use super::netlist;
use super::netlist::{Env, Netlist};
use super::profile;
use super::profile::{Phase, Profile};
use super::protocol;
use super::protocol::{Buffers, Machine};
use super::reference;
use super::stark;
use super::stark::{Air, Config, Data, ABSORBED, DIM};
use super::stark_model;
use super::stark_model::{StarkDraws, StarkM};
use super::stark_wires;
use super::stark_wires::{Boundary, Tensor};
use super::wire_arith;
use super::wire_closing;
use super::wire_inputs;
use super::wire_inputs::{carried, grew, grids, grids_ok};
use super::wire_layout;
use super::wire_sponge;
use super::wire_sponge::{gadget_machine, Sponge};
use super::wire_transcript;
use super::wire_transcript::hold;
use super::wires;
use super::wires::{elem_ok, elems_ok, Elem};
use vstd::arithmetic::power2::pow2;
use vstd::prelude::*;

verus! {

broadcast use {
    netlist::group_netlist,
    profile::lemma_profile_ext,
    wire_sponge::lemma_sponge_ext,
    wire_sponge::lemma_sponge_wf,
};

/// The proof's messages as input wires, in transcript order.
pub struct Inputs {
    pub claimed_sum: Elem,
    pub round_polys: Vec<Vec<Elem>>,
    pub values: Vec<Elem>,
    pub tensor: Vec<Elem>,
    pub successor: Option<(Vec<Elem>, Vec<Elem>)>,
    pub rs_sumcheck: Vec<(Elem, Elem)>,
    pub final_eval: Elem,
    /// The bits that the proof puts on the wires, in wire order.
    pub witness: Vec<bool>,
}

/// The messages without the grinding witnesses, which the circuit does not
/// read.
pub open spec fn bare(p: StarkM) -> StarkM {
    StarkM { pow_witnesses: Seq::empty(), ..p }
}

pub open spec fn pairs_ok(v: Seq<(Elem, Elem)>, n: nat) -> bool {
    forall|i: int|
        0 <= i < v.len() ==> elem_ok((#[trigger] v[i]).0@, n) && elem_ok(v[i].1@, n)
}

pub open spec fn pairs(c: Netlist, env: Env, v: Seq<(Elem, Elem)>) -> Seq<(Elt, Elt)> {
    Seq::new(
        v.len(),
        |i: int| (netlist::bits(c, env, v[i].0@), netlist::bits(c, env, v[i].1@)),
    )
}

impl Inputs {
    /// Every wire has been allocated.
    pub open spec fn wires_ok(self, n: nat) -> bool {
        &&& elem_ok(self.claimed_sum@, n)
        &&& grids_ok(self.round_polys@, n)
        &&& elems_ok(self.values@, n)
        &&& elems_ok(self.tensor@, n)
        &&& self.successor matches Some((c, l)) ==> elems_ok(c@, n) && elems_ok(l@, n)
        &&& pairs_ok(self.rs_sumcheck@, n)
        &&& elem_ok(self.final_eval@, n)
    }

    /// The inputs have the sizes that the configuration asks for.
    pub open spec fn shaped(self, cfg: Config) -> bool {
        &&& self.round_polys@.len() == cfg.log_height
        &&& wire_closing::points_of(self.round_polys@, 4)
        &&& self.values@.len() == 2 * cfg.width
        &&& self.tensor@.len() == DIM
        &&& self.successor is Some <==> stark_model::sends_successor(cfg)
        &&& self.successor matches Some((c, l)) ==> c@.len() == DIM && l@.len() == DIM
        &&& self.rs_sumcheck@.len() == stark_model::packed_vars(cfg)
    }

    /// The messages on the wires.
    pub open spec fn messages(self, c: Netlist, env: Env) -> StarkM {
        StarkM {
            claimed_sum: netlist::bits(c, env, self.claimed_sum@),
            round_polys: grids(c, env, self.round_polys@),
            pow_witnesses: Seq::empty(),
            values: netlist::words(c, env, self.values@),
            tensor: netlist::words(c, env, self.tensor@),
            successor: match self.successor {
                Some((x, y)) => Some(
                    (netlist::words(c, env, x@), netlist::words(c, env, y@)),
                ),
                None => None,
            },
            rs_sumcheck: pairs(c, env, self.rs_sumcheck@),
            final_eval: netlist::bits(c, env, self.final_eval@),
        }
    }
}

pub proof fn lemma_pairs_ext(a: Netlist, b: Netlist, env: Env, v: Seq<(Elem, Elem)>)
    requires
        netlist::ext(a, b),
        pairs_ok(v, a.next),
    ensures
        pairs_ok(v, b.next),
        pairs(b, env, v) == pairs(a, env, v),
{
    assert forall|i: int| 0 <= i < v.len() implies pairs(b, env, v)[i] == pairs(a, env, v)[i] by {
        assert(elem_ok(v[i].0@, a.next) && elem_ok(v[i].1@, a.next));
    }
    assert(pairs(b, env, v) =~= pairs(a, env, v));
}

/// Emitting gates leaves the inputs alone.
pub proof fn lemma_inputs_ext(inputs: Inputs, a: Netlist, b: Netlist, env: Env)
    requires
        netlist::ext(a, b),
        inputs.wires_ok(a.next),
    ensures
        inputs.wires_ok(b.next),
        inputs.messages(b, env) == inputs.messages(a, env),
{
    wire_inputs::lemma_grids_ok(inputs.round_polys@, a.next, b.next);
    wire_inputs::lemma_grids_ext(a, b, env, inputs.round_polys@);
    lemma_pairs_ext(a, b, env, inputs.rs_sumcheck@);
}

/// The sizes of the messages.
pub struct StarkShape {
    pub round_polys: nat,
    pub values: nat,
    pub tensor: nat,
    pub successor: Option<(nat, nat)>,
    pub rs_sumcheck: nat,
}

pub open spec fn shape_of(d: Data) -> StarkShape {
    StarkShape {
        round_polys: d.round_polys@.len(),
        values: d.values@.len(),
        tensor: d.tensor@.len(),
        successor: match d.successor {
            Some((c, l)) => Some((c@.len(), l@.len())),
            None => None,
        },
        rs_sumcheck: d.rs_sumcheck@.len(),
    }
}

/// `n` lists of four elements.
pub open spec fn fours(n: nat) -> Seq<nat> {
    Seq::new(n, |i: int| 4nat)
}

/// `n` pairs of elements on the input wires from `start` on.
pub open spec fn laid_pairs(env: Env, start: int, n: nat) -> Seq<(Elt, Elt)> {
    Seq::new(
        n,
        |k: int|
            (
                wire_layout::bits(env, start + 256 * k, 128),
                wire_layout::bits(env, start + 256 * k + 128, 128),
            ),
    )
}

/// The carry and last tensors, where there are any.
pub open spec fn laid_successor(env: Env, start: int, s: Option<(nat, nat)>) -> Option<
    (Seq<Elt>, Seq<Elt>),
> {
    match s {
        Some((c, l)) => Some(
            (wire_layout::elems(env, start, c), wire_layout::elems(env, start + 128 * c, l)),
        ),
        None => None,
    }
}

pub open spec fn successor_size(s: Option<(nat, nat)>) -> nat {
    match s {
        Some((c, l)) => 128 * c + 128 * l,
        None => 0,
    }
}

/// The messages on the input wires from `start` on.
pub open spec fn laid(env: Env, start: int, s: StarkShape) -> StarkM {
    let s1 = start + 128;
    let s2 = s1 + wire_layout::rows_size(fours(s.round_polys));
    let s3 = s2 + 128 * s.values;
    let s4 = s3 + 128 * s.tensor;
    let s5 = s4 + successor_size(s.successor);
    let s6 = s5 + 256 * s.rs_sumcheck;
    StarkM {
        claimed_sum: wire_layout::bits(env, start, 128),
        round_polys: wire_layout::rows(env, s1, fours(s.round_polys)),
        pow_witnesses: Seq::empty(),
        values: wire_layout::elems(env, s2, s.values),
        tensor: wire_layout::elems(env, s3, s.tensor),
        successor: laid_successor(env, s4, s.successor),
        rs_sumcheck: laid_pairs(env, s5, s.rs_sumcheck),
        final_eval: wire_layout::bits(env, s6, 128),
    }
}

fn poly_values(p: &[F; 4]) -> (v: Vec<F>)
    ensures
        v@ == p@,
{
    let mut v: Vec<F> = Vec::new();
    while v.len() < 4
        invariant
            v@.len() <= 4,
            v@ == p@.take(v@.len() as int),
        decreases 4 - v@.len(),
    {
        let k = v.len();
        v.push(p[k]);
        assert(p@.take(k + 1) =~= p@.take(k as int).push(p@[k as int]));
    }
    assert(p@.take(4) =~= p@);
    v
}

fn alloc_polys<T: ValuedBuilder>(
    b: &mut T,
    witness: &mut Vec<bool>,
    polys: &Vec<[F; 4]>,
    Ghost(base): Ghost<nat>,
) -> (r: Vec<Vec<Elem>>)
    requires
        old(b).inv(),
        old(b)@.next == base + old(witness)@.len(),
    ensures
        final(b).inv(),
        grew(old(b)@, old(witness)@, final(b)@, final(witness)@, base),
        r@.len() == polys@.len(),
        wire_closing::points_of(r@, 4),
        grids_ok(r@, final(b)@.next),
        final(b)@.next == old(b)@.next + wire_layout::rows_size(fours(polys@.len())),
        forall|env: Env| #[trigger]
            grids(final(b)@, env, r@) == wire_layout::rows(
                env,
                old(b)@.next as int,
                fours(polys@.len()),
            ),
        forall|env: Env|
            carried(env, base, final(witness)@) ==> #[trigger] grids(final(b)@, env, r@)
                == stark::poly_messages(polys@),
{
    let mut copies: Vec<Vec<F>> = Vec::new();
    while copies.len() < polys.len()
        invariant
            copies@.len() <= polys@.len(),
            forall|i: int| 0 <= i < copies@.len() ==> (#[trigger] copies@[i])@ == polys@[i]@,
        decreases polys@.len() - copies@.len(),
    {
        let k = copies.len();
        copies.push(poly_values(&polys[k]));
    }
    let r = wire_inputs::alloc_rows(b, witness, &copies, Ghost(base));
    proof {
        assert(wire_layout::lens(copies@) =~= fours(polys@.len())) by {
            assert forall|i: int| 0 <= i < copies@.len() implies wire_layout::lens(copies@)[i]
                == 4 by {
                assert(copies@[i]@ == polys@[i]@);
            }
        }
        assert(reference::elts2(copies@) =~= stark::poly_messages(polys@)) by {
            assert forall|i: int| 0 <= i < polys@.len() implies reference::elts2(copies@)[i]
                == stark::poly_messages(polys@)[i] by {
                assert(copies@[i]@ == polys@[i]@);
            }
        }
        assert forall|i: int| 0 <= i < r@.len() implies (#[trigger] r@[i])@.len() == 4 by {
            assert(copies@[i]@ == polys@[i]@);
        }
    }
    r
}

fn alloc_pairs<T: ValuedBuilder>(
    b: &mut T,
    witness: &mut Vec<bool>,
    xs: &Vec<[F; 2]>,
    Ghost(base): Ghost<nat>,
) -> (r: Vec<(Elem, Elem)>)
    requires
        old(b).inv(),
        old(b)@.next == base + old(witness)@.len(),
    ensures
        final(b).inv(),
        grew(old(b)@, old(witness)@, final(b)@, final(witness)@, base),
        r@.len() == xs@.len(),
        pairs_ok(r@, final(b)@.next),
        final(b)@.next == old(b)@.next + 256 * xs@.len(),
        forall|env: Env| #[trigger]
            pairs(final(b)@, env, r@) == laid_pairs(env, old(b)@.next as int, xs@.len()),
        forall|env: Env|
            carried(env, base, final(witness)@) ==> #[trigger] pairs(final(b)@, env, r@)
                == stark::switch_messages(xs@),
{
    let ghost first = b@;
    let ghost w0 = witness@;
    let ghost want = stark::switch_messages(xs@);
    let mut r: Vec<(Elem, Elem)> = Vec::new();
    proof {
        wire_inputs::lemma_grew_refl(first, w0, base);
    }
    while r.len() < xs.len()
        invariant
            b.inv(),
            want == stark::switch_messages(xs@),
            r@.len() <= xs@.len(),
            grew(first, w0, b@, witness@, base),
            pairs_ok(r@, b@.next),
            b@.next == first.next + 256 * r@.len(),
            forall|env: Env, i: int|
                0 <= i < r@.len() ==> #[trigger] pair_at(b@, env, r@, i) == laid_pairs(
                    env,
                    first.next as int,
                    xs@.len(),
                )[i],
            forall|env: Env, i: int|
                carried(env, base, witness@) && 0 <= i < r@.len() ==> #[trigger] pair_at(
                    b@,
                    env,
                    r@,
                    i,
                ) == want[i],
        decreases xs@.len() - r@.len(),
    {
        let k = r.len();
        let ghost n0 = b@;
        let ghost wk = witness@;
        let ghost r0 = r@;
        let x = wire_inputs::alloc_elem(b, witness, xs[k][0], Ghost(base));
        let ghost n1 = b@;
        let ghost w1 = witness@;
        let y = wire_inputs::alloc_elem(b, witness, xs[k][1], Ghost(base));
        let ghost xw = x@;
        let ghost yw = y@;
        r.push((x, y));
        proof {
            wire_inputs::lemma_grew_trans(n0, wk, n1, w1, b@, witness@, base);
            wire_inputs::lemma_grew_trans(first, w0, n0, wk, b@, witness@, base);
            assert forall|i: int| 0 <= i < r@.len() implies elem_ok(
                (#[trigger] r@[i]).0@,
                b@.next,
            ) && elem_ok(r@[i].1@, b@.next) by {
                if i < k {
                    assert(r@[i] == r0[i]);
                    assert(elem_ok(r0[i].0@, n0.next) && elem_ok(r0[i].1@, n0.next));
                }
            }
            assert forall|env: Env, i: int| 0 <= i < r@.len() implies #[trigger] pair_at(
                b@,
                env,
                r@,
                i,
            ) == laid_pairs(env, first.next as int, xs@.len())[i] by {
                if i < k {
                    assert(r@[i] == r0[i]);
                    assert(elem_ok(r0[i].0@, n0.next) && elem_ok(r0[i].1@, n0.next));
                    assert(pair_at(n0, env, r0, i) == laid_pairs(
                        env,
                        first.next as int,
                        xs@.len(),
                    )[i]);
                } else {
                    assert(netlist::bits(b@, env, xw) == netlist::bits(n1, env, xw));
                }
            }
            assert forall|env: Env, i: int|
                carried(env, base, witness@) && 0 <= i < r@.len() implies #[trigger] pair_at(
                b@,
                env,
                r@,
                i,
            ) == want[i] by {
                wire_inputs::lemma_carried_prefix(n0, wk, b@, witness@, base, env);
                wire_inputs::lemma_carried_prefix(n1, w1, b@, witness@, base, env);
                if i < k {
                    assert(r@[i] == r0[i]);
                    assert(elem_ok(r0[i].0@, n0.next) && elem_ok(r0[i].1@, n0.next));
                    assert(pair_at(n0, env, r0, i) == want[i]);
                } else {
                    assert(netlist::bits(n1, env, xw) == want[i].0);
                    assert(netlist::bits(b@, env, xw) == want[i].0);
                    assert(netlist::bits(b@, env, yw) == want[i].1);
                }
            }
        }
    }
    proof {
        assert forall|env: Env| #[trigger]
            pairs(b@, env, r@) == laid_pairs(env, first.next as int, xs@.len()) by {
            let all = laid_pairs(env, first.next as int, xs@.len());
            assert forall|i: int| 0 <= i < r@.len() implies pairs(b@, env, r@)[i] == all[i] by {
                assert(pair_at(b@, env, r@, i) == all[i]);
            }
            assert(pairs(b@, env, r@) =~= all);
        }
        assert forall|env: Env| carried(env, base, witness@) implies #[trigger] pairs(
            b@,
            env,
            r@,
        ) == want by {
            assert forall|i: int| 0 <= i < r@.len() implies pairs(b@, env, r@)[i] == want[i] by {
                assert(pair_at(b@, env, r@, i) == want[i]);
            }
            assert(pairs(b@, env, r@) =~= want);
        }
    }
    r
}

/// Pair `i`.
pub open spec fn pair_at(c: Netlist, env: Env, v: Seq<(Elem, Elem)>, i: int) -> (Elt, Elt) {
    (netlist::bits(c, env, v[i].0@), netlist::bits(c, env, v[i].1@))
}

fn alloc_successor<T: ValuedBuilder>(
    b: &mut T,
    witness: &mut Vec<bool>,
    x: &Option<(Vec<F>, Vec<F>)>,
    Ghost(base): Ghost<nat>,
) -> (r: Option<(Vec<Elem>, Vec<Elem>)>)
    requires
        old(b).inv(),
        old(b)@.next == base + old(witness)@.len(),
    ensures
        final(b).inv(),
        grew(old(b)@, old(witness)@, final(b)@, final(witness)@, base),
        r is Some == x is Some,
        r is None ==> final(b)@.next == old(b)@.next,
        r matches Some((c, l)) ==> {
            &&& c@.len() == (x->0).0@.len()
            &&& l@.len() == (x->0).1@.len()
            &&& elems_ok(c@, final(b)@.next)
            &&& elems_ok(l@, final(b)@.next)
            &&& final(b)@.next == old(b)@.next + 128 * c@.len() + 128 * l@.len()
            &&& forall|env: Env| #[trigger]
                netlist::words(final(b)@, env, c@) == wire_layout::elems(
                    env,
                    old(b)@.next as int,
                    c@.len(),
                )
            &&& forall|env: Env| #[trigger]
                netlist::words(final(b)@, env, l@) == wire_layout::elems(
                    env,
                    old(b)@.next as int + 128 * c@.len(),
                    l@.len(),
                )
            &&& forall|env: Env|
                carried(env, base, final(witness)@) ==> #[trigger] netlist::words(
                    final(b)@,
                    env,
                    c@,
                ) == reference::elts((x->0).0@)
            &&& forall|env: Env|
                carried(env, base, final(witness)@) ==> #[trigger] netlist::words(
                    final(b)@,
                    env,
                    l@,
                ) == reference::elts((x->0).1@)
        },
{
    match x {
        Some(v) => {
            let ghost n0 = b@;
            let ghost w0 = witness@;
            let c = wire_inputs::alloc_elems(b, witness, v.0.as_slice(), Ghost(base));
            let ghost n1 = b@;
            let ghost w1 = witness@;
            let l = wire_inputs::alloc_elems(b, witness, v.1.as_slice(), Ghost(base));
            proof {
                wire_inputs::lemma_grew_trans(n0, w0, n1, w1, b@, witness@, base);
                assert forall|env: Env| #[trigger]
                    netlist::words(b@, env, c@) == wire_layout::elems(
                        env,
                        n0.next as int,
                        c@.len(),
                    ) by {
                    assert(netlist::words(b@, env, c@) == netlist::words(n1, env, c@));
                }
                assert forall|env: Env| carried(env, base, witness@) implies (
                #[trigger] netlist::words(b@, env, c@)) == reference::elts(v.0@) by {
                    wire_inputs::lemma_carried_prefix(n1, w1, b@, witness@, base, env);
                    assert(netlist::words(n1, env, c@) == reference::elts(v.0@));
                }
            }
            Some((c, l))
        },
        None => {
            proof {
                wire_inputs::lemma_grew_refl(b@, witness@, base);
            }
            None
        },
    }
}

impl Inputs {
    /// Lay out the messages.
    #[verifier::rlimit(40)]
    pub fn allocate<T: ValuedBuilder>(b: &mut T, d: &Data) -> (me: Self)
        requires
            old(b).inv(),
        ensures
            final(b).inv(),
            grew(old(b)@, Seq::empty(), final(b)@, me.witness@, old(b)@.next),
            me.wires_ok(final(b)@.next),
            forall|env: Env| #[trigger]
                me.messages(final(b)@, env) == laid(env, old(b)@.next as int, shape_of(*d)),
            me.round_polys@.len() == d.round_polys@.len(),
            wire_closing::points_of(me.round_polys@, 4),
            me.values@.len() == d.values@.len(),
            me.tensor@.len() == d.tensor@.len(),
            me.successor is Some == d.successor is Some,
            me.successor matches Some((c, l)) ==> c@.len() == (d.successor->0).0@.len() && l@.len()
                == (d.successor->0).1@.len(),
            me.rs_sumcheck@.len() == d.rs_sumcheck@.len(),
            forall|env: Env|
                carried(env, old(b)@.next, me.witness@) ==> #[trigger] me.messages(
                    final(b)@,
                    env,
                ) == bare(d.messages()),
    {
        let ghost base = b@.next;
        let mut witness: Vec<bool> = Vec::new();
        let ghost b0 = b@;
        let ghost w0 = witness@;
        assert(w0 =~= Seq::<bool>::empty());
        let claimed_sum = wire_inputs::alloc_elem(b, &mut witness, d.claimed_sum, Ghost(base));
        let ghost b1 = b@;
        let ghost w1 = witness@;
        let round_polys = alloc_polys(b, &mut witness, &d.round_polys, Ghost(base));
        let ghost b2 = b@;
        let ghost w2 = witness@;
        let values = wire_inputs::alloc_elems(b, &mut witness, d.values.as_slice(), Ghost(base));
        let ghost b3 = b@;
        let ghost w3 = witness@;
        let tensor = wire_inputs::alloc_elems(b, &mut witness, d.tensor.as_slice(), Ghost(base));
        let ghost b4 = b@;
        let ghost w4 = witness@;
        let successor = alloc_successor(b, &mut witness, &d.successor, Ghost(base));
        let ghost b5 = b@;
        let ghost w5 = witness@;
        let rs_sumcheck = alloc_pairs(b, &mut witness, &d.rs_sumcheck, Ghost(base));
        let ghost b6 = b@;
        let ghost w6 = witness@;
        let final_eval = wire_inputs::alloc_elem(b, &mut witness, d.final_eval, Ghost(base));
        let me = Inputs {
            claimed_sum,
            round_polys,
            values,
            tensor,
            successor,
            rs_sumcheck,
            final_eval,
            witness,
        };
        proof {
            let c = b@;
            let w = me.witness@;
            wire_inputs::lemma_grew_trans(b5, w5, b6, w6, c, w, base);
            wire_inputs::lemma_grew_trans(b4, w4, b5, w5, c, w, base);
            wire_inputs::lemma_grew_trans(b3, w3, b4, w4, c, w, base);
            wire_inputs::lemma_grew_trans(b2, w2, b3, w3, c, w, base);
            wire_inputs::lemma_grew_trans(b1, w1, b2, w2, c, w, base);
            wire_inputs::lemma_grew_trans(b0, w0, b1, w1, c, w, base);
            wire_inputs::lemma_grids_ok(round_polys@, b2.next, c.next);
            let some: Env = |i: int| false;
            lemma_pairs_ext(b6, c, some, rs_sumcheck@);
            let shape = shape_of(*d);
            assert forall|env: Env| #[trigger]
                me.messages(c, env) == laid(env, base as int, shape) by {
                let g = me.messages(c, env);
                let want = laid(env, base as int, shape);
                assert(netlist::bits(c, env, claimed_sum@) == netlist::bits(
                    b1,
                    env,
                    claimed_sum@,
                ));
                wire_inputs::lemma_grids_ext(b2, c, env, round_polys@);
                assert(netlist::words(c, env, values@) == netlist::words(b3, env, values@));
                assert(netlist::words(c, env, tensor@) == netlist::words(b4, env, tensor@));
                if successor is Some {
                    let x = (successor->0).0;
                    let y = (successor->0).1;
                    assert(netlist::words(c, env, x@) == netlist::words(b5, env, x@));
                    assert(netlist::words(c, env, y@) == netlist::words(b5, env, y@));
                }
                assert(g.successor == want.successor);
                lemma_pairs_ext(b6, c, env, rs_sumcheck@);
                assert(g.rs_sumcheck == want.rs_sumcheck);
                assert(g.final_eval == want.final_eval);
            }
            let m = bare(d.messages());
            assert forall|env: Env| carried(env, base, w) implies #[trigger] me.messages(c, env)
                == m by {
                wire_inputs::lemma_carried_prefix(b1, w1, c, w, base, env);
                wire_inputs::lemma_carried_prefix(b2, w2, c, w, base, env);
                wire_inputs::lemma_carried_prefix(b3, w3, c, w, base, env);
                wire_inputs::lemma_carried_prefix(b4, w4, c, w, base, env);
                wire_inputs::lemma_carried_prefix(b5, w5, c, w, base, env);
                wire_inputs::lemma_carried_prefix(b6, w6, c, w, base, env);
                let g = me.messages(c, env);
                assert(netlist::bits(b1, env, claimed_sum@) == m.claimed_sum);
                assert(g.claimed_sum == m.claimed_sum);
                assert(grids(b2, env, round_polys@) == m.round_polys);
                wire_inputs::lemma_grids_ext(b2, c, env, round_polys@);
                assert(netlist::words(b3, env, values@) == m.values);
                assert(g.values == m.values);
                assert(netlist::words(b4, env, tensor@) == m.tensor);
                assert(g.tensor == m.tensor);
                if successor is Some {
                    let x = (successor->0).0;
                    let y = (successor->0).1;
                    assert(netlist::words(b5, env, x@) == reference::elts((d.successor->0).0@));
                    assert(netlist::words(b5, env, y@) == reference::elts((d.successor->0).1@));
                    assert(netlist::words(c, env, x@) == netlist::words(b5, env, x@));
                    assert(netlist::words(c, env, y@) == netlist::words(b5, env, y@));
                }
                assert(g.successor == m.successor);
                assert(pairs(b6, env, rs_sumcheck@) == m.rs_sumcheck);
                lemma_pairs_ext(b6, c, env, rs_sumcheck@);
                assert(g.final_eval == m.final_eval);
            }
        }
        me
    }
}

// ---------------------------------------------------------------------------
// What the circuit draws.
// ---------------------------------------------------------------------------

/// The prefix with `tau` drawn without redrawing, and no Boolean prefix.
pub open spec fn wired<St>(m: Machine<St>, st: St, cfg: Config, p: StarkM) -> (St, StarkDraws) {
    let (s1, alpha, beta) = stark_model::first_draws(m, st, cfg);
    let (s2, tau) = protocol::draw_elts(m, s1, cfg.log_height as nat);
    let (s3, r, final_sum, c, ok) = stark_model::batching_draws(m, s2, cfg, p);
    let (s4, r_batch, alpha_rs) = stark_model::statement_draws(m, s3, cfg, p, c + r);
    let (s5, r_prime) = stark_model::switch_draws(
        m,
        protocol::absorb_all(m, s4, cfg.seeds.quadratic@),
        p.rs_sumcheck,
    );
    (
        protocol::absorb_elt(m, s5, p.final_eval),
        StarkDraws {
            alpha,
            beta,
            tau,
            r,
            final_sum,
            c,
            r_batch,
            alpha_rs,
            r_prime,
            prefix: 0,
            surviving: r_prime,
            pow_ok: ok,
        },
    )
}

/// Neither 0 nor 1.
pub open spec fn proper(x: Elt) -> bool {
    x != field::zero128() && x != field::one128()
}

/// The guards: nonzero `tau`s, and column-point coordinates that are neither 0
/// nor 1.
pub open spec fn guarded(cfg: Config, d: StarkDraws) -> bool {
    let f = stark_model::fixable(cfg, d.c + d.r);
    &&& forall|i: int| 0 <= i < d.tau.len() ==> (#[trigger] d.tau[i]) != field::zero128()
    &&& forall|i: int| 0 <= i < f.len() ==> proper(#[trigger] f[i])
}

proof fn lemma_draw_first<St>(m: Machine<St>, st: St, n: nat)
    requires
        n > 0,
    ensures
        ({
            let (s, x) = protocol::draw_elt(m, st);
            let (t, rest) = protocol::draw_elts(m, s, (n - 1) as nat);
            protocol::draw_elts(m, st, n) == (t, seq![x] + rest)
        }),
    decreases n,
{
    let (s, x) = protocol::draw_elt(m, st);
    if n == 1 {
        let (a, e) = protocol::draw_elts(m, st, 0);
        assert(a == st);
        assert(e.push(x) =~= seq![x] + Seq::<Elt>::empty());
    } else {
        lemma_draw_first(m, st, (n - 1) as nat);
        let (t, rest) = protocol::draw_elts(m, s, (n - 2) as nat);
        let (u, y) = protocol::draw_elt(m, t);
        assert((seq![x] + rest).push(y) =~= seq![x] + rest.push(y));
    }
}

proof fn lemma_nonzero<St>(m: Machine<St>, st: St, n: nat, fuel: nat)
    requires
        fuel >= n,
        forall|i: int|
            0 <= i < n ==> (#[trigger] protocol::draw_elts(m, st, n).1[i]) != field::zero128(),
    ensures
        stark_model::nonzero_draws(m, st, n, fuel) == Some(protocol::draw_elts(m, st, n)),
        protocol::draw_elts(m, st, n).1.len() == n,
    decreases n,
{
    if n > 0 {
        let (s, x) = protocol::draw_elt(m, st);
        let (t, rest) = protocol::draw_elts(m, s, (n - 1) as nat);
        let all = protocol::draw_elts(m, st, n).1;
        lemma_draw_first(m, st, n);
        lemma_draws_len(m, s, (n - 1) as nat);
        assert(all[0] == x);
        assert forall|i: int| 0 <= i < n - 1 implies (#[trigger] rest[i]) != field::zero128() by {
            assert(all[i + 1] == rest[i]);
        }
        lemma_nonzero(m, s, (n - 1) as nat, (fuel - 1) as nat);
    }
}

proof fn lemma_draws_len<St>(m: Machine<St>, st: St, n: nat)
    ensures
        protocol::draw_elts(m, st, n).1.len() == n,
    decreases n,
{
    if n > 0 {
        lemma_draws_len(m, st, (n - 1) as nat);
    }
}

/// Where the guards hold the circuit follows the plain verifier's transcript.
pub proof fn law_wired_prefix<St>(m: Machine<St>, st: St, cfg: Config, p: StarkM, fuel: nat)
    requires
        guarded(cfg, wired(m, st, cfg, p).1),
        stark_model::packed_vars(cfg) > 0,
        fuel >= cfg.log_height,
    ensures
        stark_model::prefix(m, st, cfg, p, fuel) == Some(wired(m, st, cfg, p)),
{
    let (s1, alpha, beta) = stark_model::first_draws(m, st, cfg);
    let (s2, tau) = protocol::draw_elts(m, s1, cfg.log_height as nat);
    let (s3, r, final_sum, c, ok) = stark_model::batching_draws(m, s2, cfg, p);
    let d = wired(m, st, cfg, p).1;
    lemma_draws_len(m, s1, cfg.log_height as nat);
    assert(d.tau == tau);
    assert(d.c == c && d.r == r);
    lemma_nonzero(m, s1, cfg.log_height as nat, fuel);
    let f = stark_model::fixable(cfg, c + r);
    if f.len() > 0 {
        assert(proper(f[0]));
    }
    assert(stark_model::boolean_prefix(f) == 0);
    assert((c + r).take(0) + d.r_prime =~= d.r_prime);
}

proof fn lemma_zerocheck_bare<St>(
    m: Machine<St>,
    st: St,
    claimed: Elt,
    polys: Seq<Seq<Elt>>,
    w: Seq<Elt>,
    v: Seq<Elt>,
)
    ensures
        stark_model::zerocheck_draws(m, st, claimed, polys, w, 0)
            == stark_model::zerocheck_draws(m, st, claimed, polys, v, 0),
        stark_model::zerocheck_draws(m, st, claimed, polys, w, 0).3,
    decreases polys.len(),
{
    if polys.len() > 0 {
        lemma_zerocheck_bare(m, st, claimed, polys.drop_last(), w, v);
    }
}

/// Without grinding the witnesses do not matter.
pub proof fn lemma_bare<St>(m: Machine<St>, st: St, cfg: Config, p: StarkM)
    requires
        cfg.pow_bits == 0,
    ensures
        wired(m, st, cfg, bare(p)) == wired(m, st, cfg, p),
        wired(m, st, cfg, p).1.pow_ok,
{
    let (s1, alpha, beta) = stark_model::first_draws(m, st, cfg);
    let (s2, tau) = protocol::draw_elts(m, s1, cfg.log_height as nat);
    let s0 = protocol::absorb_all(m, s2, cfg.seeds.generic_degree@);
    let t1 = protocol::absorb_elt(m, s0, p.claimed_sum);
    lemma_zerocheck_bare(
        m,
        t1,
        p.claimed_sum,
        p.round_polys,
        p.pow_witnesses,
        Seq::empty(),
    );
}

// ---------------------------------------------------------------------------
// The transcript.
// ---------------------------------------------------------------------------

/// The configuration's sizes are those of a circuit.
pub open spec fn sized(cfg: Config) -> bool {
    &&& ABSORBED <= cfg.log_height + stark_model::column_vars(cfg) <= usize::MAX
    &&& stark_model::column_vars(cfg) < usize::BITS
    &&& cfg.pow_bits == 0
}

/// What the layers draw, on wires.
pub struct Challenges {
    pub alpha: Elem,
    pub beta: Elem,
    pub tau: Vec<Elem>,
    pub r: Vec<Elem>,
    pub final_sum: Elem,
    pub c: Vec<Elem>,
    pub r_batch: Vec<Elem>,
    pub alpha_rs: Option<Elem>,
    pub r_prime: Vec<Elem>,
    pub surviving: Vec<Elem>,
    /// Wires that must be 1: the nonzero `tau`s and the non-Boolean column
    /// point coordinates.
    pub guards: Vec<usize>,
}

impl Challenges {
    pub open spec fn wf(self, cfg: Config, n: nat) -> bool {
        &&& elem_ok(self.alpha@, n)
        &&& elem_ok(self.beta@, n)
        &&& self.tau@.len() == cfg.log_height
        &&& elems_ok(self.tau@, n)
        &&& self.r@.len() == cfg.log_height
        &&& elems_ok(self.r@, n)
        &&& elem_ok(self.final_sum@, n)
        &&& self.c@.len() == stark_model::column_vars(cfg)
        &&& elems_ok(self.c@, n)
        &&& self.r_batch@.len() == ABSORBED
        &&& elems_ok(self.r_batch@, n)
        &&& wire_inputs::optional_ok(self.alpha_rs, stark_model::sends_successor(cfg), n)
        &&& self.r_prime@.len() == stark_model::packed_vars(cfg)
        &&& elems_ok(self.r_prime@, n)
        &&& self.surviving@.len() == stark_model::packed_vars(cfg)
        &&& elems_ok(self.surviving@, n)
        &&& netlist::below(self.guards@, n)
    }

    pub open spec fn draws(self, c: Netlist, env: Env) -> StarkDraws {
        StarkDraws {
            alpha: netlist::bits(c, env, self.alpha@),
            beta: netlist::bits(c, env, self.beta@),
            tau: netlist::words(c, env, self.tau@),
            r: netlist::words(c, env, self.r@),
            final_sum: netlist::bits(c, env, self.final_sum@),
            c: netlist::words(c, env, self.c@),
            r_batch: netlist::words(c, env, self.r_batch@),
            alpha_rs: match self.alpha_rs {
                Some(a) => Some(netlist::bits(c, env, a@)),
                None => None,
            },
            r_prime: netlist::words(c, env, self.r_prime@),
            prefix: 0,
            surviving: netlist::words(c, env, self.surviving@),
            pow_ok: true,
        }
    }
}

pub proof fn lemma_challenges_ext(ch: Challenges, cfg: Config, a: Netlist, b: Netlist)
    requires
        netlist::ext(a, b),
        ch.wf(cfg, a.next),
    ensures
        ch.wf(cfg, b.next),
        forall|env: Env| #[trigger] ch.draws(b, env) == ch.draws(a, env),
{
}

/// An element is nonzero where one of its bits is set.
proof fn lemma_any_nonzero(x: Elt)
    requires
        x.len() == 128,
    ensures
        wires::any(x) == (x != field::zero128()),
{
    field::lemma_level_128();
    let z = field::zero128();
    if x != z {
        if forall|i: int| 0 <= i < 128 ==> !#[trigger] x[i] {
            assert(x =~= z);
        }
        let i = choose|i: int| 0 <= i < 128 && #[trigger] x[i];
        assert(x[i]);
    } else {
        assert forall|i: int| 0 <= i < x.len() implies !#[trigger] x[i] by {
            assert(z[i] == false);
        }
    }
}

/// 1 iff `x` is nonzero.
fn nonzero<T: CircuitTrait>(b: &mut T, x: &Elem) -> (w: usize)
    requires
        old(b).inv(),
        elem_ok(x@, old(b)@.next),
    ensures
        final(b).inv(),
        netlist::ext(old(b)@, final(b)@),
        w < final(b)@.next,
        forall|env: Env| #[trigger]
            netlist::value(final(b)@, env, w as int) == (netlist::bits(old(b)@, env, x@)
                != field::zero128()),
{
    let ghost first = b@;
    let w = wires::or_all(b, x.as_slice());
    proof {
        assert forall|env: Env| #[trigger]
            netlist::value(b@, env, w as int) == (netlist::bits(first, env, x@)
                != field::zero128()) by {
            lemma_any_nonzero(netlist::bits(first, env, x@));
        }
    }
    w
}

/// One check per element: nonzero.
fn nonzero_checks<T: CircuitTrait>(b: &mut T, xs: &Vec<Elem>, checks: &mut Vec<usize>)
    requires
        old(b).inv(),
        elems_ok(xs@, old(b)@.next),
        netlist::below(old(checks)@, old(b)@.next),
    ensures
        final(b).inv(),
        netlist::ext(old(b)@, final(b)@),
        netlist::below(final(checks)@, final(b)@.next),
        forall|env: Env| #[trigger]
            hold(final(b)@, env, final(checks)@) == (hold(old(b)@, env, old(checks)@)
                && all_nonzero(netlist::words(old(b)@, env, xs@), xs@.len() as int)),
{
    let ghost first = b@;
    let ghost checks0 = checks@;
    let mut k: usize = 0;
    proof {
        netlist::lemma_ext_refl(first);
    }
    while k < xs.len()
        invariant
            b.inv(),
            netlist::ext(first, b@),
            elems_ok(xs@, first.next),
            k <= xs@.len(),
            netlist::below(checks@, b@.next),
            forall|env: Env| #[trigger]
                hold(b@, env, checks@) == (hold(first, env, checks0) && all_nonzero(
                    netlist::words(first, env, xs@),
                    k as int,
                )),
        decreases xs@.len() - k,
    {
        let ghost c0 = b@;
        let ghost k0 = checks@;
        assert(elem_ok(xs@[k as int]@, first.next));
        let w = nonzero(b, &xs[k]);
        checks.push(w);
        proof {
            assert forall|env: Env| #[trigger]
                hold(b@, env, checks@) == (hold(first, env, checks0) && all_nonzero(
                    netlist::words(first, env, xs@),
                    k + 1,
                )) by {
                let all = netlist::words(first, env, xs@);
                assert(hold(c0, env, k0) == (hold(first, env, checks0) && all_nonzero(
                    all,
                    k as int,
                )));
                wire_transcript::lemma_hold_push(b@, env, k0, w);
                assert(netlist::bits(b@, env, k0) == netlist::bits(c0, env, k0));
                assert(netlist::bits(c0, env, xs@[k as int]@) == all[k as int]);
                if all_nonzero(all, k + 1) {
                    assert(all[k as int] != field::zero128());
                }
            }
        }
        k = k + 1;
    }
}

/// The first `k` elements are nonzero.
pub open spec fn all_nonzero(xs: Seq<Elt>, k: int) -> bool {
    forall|i: int| 0 <= i < k ==> (#[trigger] xs[i]) != field::zero128()
}

/// The first `k` elements are neither 0 nor 1.
pub open spec fn all_proper(xs: Seq<Elt>, k: int) -> bool {
    forall|i: int| 0 <= i < k ==> proper(#[trigger] xs[i])
}

/// One check per element: neither 0 nor 1.
#[verifier::rlimit(30)]
fn proper_checks<T: CircuitTrait>(b: &mut T, xs: &Vec<Elem>, n: usize, checks: &mut Vec<usize>)
    requires
        old(b).inv(),
        n <= xs@.len(),
        elems_ok(xs@, old(b)@.next),
        netlist::below(old(checks)@, old(b)@.next),
    ensures
        final(b).inv(),
        netlist::ext(old(b)@, final(b)@),
        netlist::below(final(checks)@, final(b)@.next),
        forall|env: Env| #[trigger]
            hold(final(b)@, env, final(checks)@) == (hold(old(b)@, env, old(checks)@)
                && all_proper(netlist::words(old(b)@, env, xs@), n as int)),
{
    let ghost first = b@;
    let ghost checks0 = checks@;
    let one = wires::one_elem(b);
    let mut k: usize = 0;
    proof {
        netlist::lemma_ext_refl(first);
    }
    while k < n
        invariant
            b.inv(),
            netlist::ext(first, b@),
            elems_ok(xs@, first.next),
            elem_ok(one@, first.next),
            forall|env: Env| #[trigger] netlist::bits(first, env, one@) == field::one128(),
            k <= n <= xs@.len(),
            netlist::below(checks@, b@.next),
            forall|env: Env| #[trigger]
                hold(b@, env, checks@) == (hold(first, env, checks0) && all_proper(
                    netlist::words(first, env, xs@),
                    k as int,
                )),
        decreases n - k,
    {
        let ghost c0 = b@;
        let ghost k0 = checks@;
        let ghost xw = xs@[k as int]@;
        assert(elem_ok(xw, first.next));
        let x1 = crate::whir_gc::wires::add(b, &xs[k], &one);
        let ghost c1 = b@;
        let nz = nonzero(b, &xs[k]);
        let ghost c2 = b@;
        let is_zero = wires::not(b, nz);
        let ghost c3 = b@;
        let nz1 = nonzero(b, &x1);
        let ghost c4 = b@;
        let is_one = wires::not(b, nz1);
        let ghost c5 = b@;
        let boolean = b.or_wire(is_zero, is_one);
        let ghost c6 = b@;
        let w = wires::not(b, boolean);
        checks.push(w);
        proof {
            assert forall|env: Env| #[trigger]
                hold(b@, env, checks@) == (hold(first, env, checks0) && all_proper(
                    netlist::words(first, env, xs@),
                    k + 1,
                )) by {
                let all = netlist::words(first, env, xs@);
                let x = netlist::bits(first, env, xw);
                assert(all[k as int] == x);
                assert(hold(c0, env, k0) == (hold(first, env, checks0) && all_proper(
                    all,
                    k as int,
                )));
                wire_transcript::lemma_hold_push(b@, env, k0, w);
                assert(netlist::bits(b@, env, k0) == netlist::bits(c0, env, k0));
                assert(netlist::bits(c0, env, xw) == x && netlist::bits(c1, env, xw) == x);
                assert(netlist::bits(c0, env, one@) == field::one128());
                assert(netlist::bits(c3, env, x1@) == field::plus(x, field::one128()));
                lemma_sum_zero(x, field::one128());
                assert(netlist::value(c2, env, nz as int) == (x != field::zero128()));
                assert(netlist::value(c3, env, is_zero as int) == (x == field::zero128()));
                assert(netlist::value(c5, env, is_zero as int) == (x == field::zero128()));
                assert(netlist::value(c5, env, is_one as int) == (x == field::one128()));
                assert(netlist::value(c6, env, boolean as int) == !proper(x));
                assert(netlist::value(b@, env, w as int) == proper(x));
                if all_proper(all, k + 1) {
                    assert(proper(all[k as int]));
                }
            }
        }
        k = k + 1;
    }
}

/// A sum is zero where its terms are equal.
proof fn lemma_sum_zero(x: Elt, y: Elt)
    requires
        x.len() == 128,
        y.len() == 128,
    ensures
        (field::plus(x, y) == field::zero128()) == (x == y),
{
    field::lemma_level_128();
    field::law_plus_self(x);
    if field::plus(x, y) == field::zero128() {
        assert forall|i: int| 0 <= i < 128 implies x[i] == y[i] by {
            assert(field::plus(x, y)[i] == field::zero128()[i]);
        }
        assert(x =~= y);
    }
}

/// The zerocheck's sumcheck.
#[verifier::rlimit(40)]
fn zerocheck_rounds<T: CircuitTrait>(
    b: &mut T,
    s: &mut Sponge,
    claimed: &Elem,
    polys: &Vec<Vec<Elem>>,
) -> (out: (Vec<Elem>, Elem))
    requires
        old(b).inv(),
        old(s).wf(old(b)@.next),
        elem_ok(claimed@, old(b)@.next),
        wire_closing::points_of(polys@, 4),
        grids_ok(polys@, old(b)@.next),
    ensures
        final(b).inv(),
        netlist::ext(old(b)@, final(b)@),
        final(s).wf(final(b)@.next),
        out.0@.len() == polys@.len(),
        elems_ok(out.0@, final(b)@.next),
        elem_ok(out.1@, final(b)@.next),
        forall|env: Env| #[trigger]
            final(s).st(final(b)@, env) == stark_model::zerocheck_draws(
                gadget_machine(),
                old(s).st(old(b)@, env),
                netlist::bits(old(b)@, env, claimed@),
                grids(old(b)@, env, polys@),
                Seq::empty(),
                0,
            ).0,
        forall|env: Env| #[trigger]
            netlist::words(final(b)@, env, out.0@) == stark_model::zerocheck_draws(
                gadget_machine(),
                old(s).st(old(b)@, env),
                netlist::bits(old(b)@, env, claimed@),
                grids(old(b)@, env, polys@),
                Seq::empty(),
                0,
            ).1,
        forall|env: Env| #[trigger]
            netlist::bits(final(b)@, env, out.1@) == stark_model::zerocheck_draws(
                gadget_machine(),
                old(s).st(old(b)@, env),
                netlist::bits(old(b)@, env, claimed@),
                grids(old(b)@, env, polys@),
                Seq::empty(),
                0,
            ).2,
{
    let ghost first = b@;
    let ghost s0 = *s;
    let ghost m = gadget_machine();
    let ghost drawn = |env: Env, k: int|
        stark_model::zerocheck_draws(
            m,
            s0.st(first, env),
            netlist::bits(first, env, claimed@),
            grids(first, env, polys@).take(k),
            Seq::empty(),
            0,
        );
    let mut r: Vec<Elem> = Vec::new();
    let mut running = wires::copy_elem(claimed);
    proof {
        netlist::lemma_ext_refl(first);
        assert forall|env: Env| true implies {
            &&& #[trigger] s.st(b@, env) == drawn(env, 0).0
            &&& netlist::words(b@, env, r@) == drawn(env, 0).1
            &&& netlist::bits(b@, env, running@) == drawn(env, 0).2
        } by {
            assert(grids(first, env, polys@).take(0) =~= Seq::<Seq<Elt>>::empty());
            assert(netlist::words(b@, env, r@) =~= Seq::<Elt>::empty());
        }
        assert forall|env: Env| #[trigger] netlist::words(b@, env, r@) == drawn(env, 0).1 by {
            assert(s.st(b@, env) == drawn(env, 0).0);
        }
        assert forall|env: Env| #[trigger]
            netlist::bits(b@, env, running@) == drawn(env, 0).2 by {
            assert(s.st(b@, env) == drawn(env, 0).0);
        }
    }
    while r.len() < polys.len()
        invariant
            b.inv(),
            m == gadget_machine(),
            drawn == (|env: Env, k: int|
                stark_model::zerocheck_draws(
                    m,
                    s0.st(first, env),
                    netlist::bits(first, env, claimed@),
                    grids(first, env, polys@).take(k),
                    Seq::empty(),
                    0,
                )),
            netlist::ext(first, b@),
            s.wf(b@.next),
            wire_closing::points_of(polys@, 4),
            grids_ok(polys@, first.next),
            r@.len() <= polys@.len(),
            elems_ok(r@, b@.next),
            elem_ok(running@, b@.next),
            forall|env: Env| #[trigger] s.st(b@, env) == drawn(env, r@.len() as int).0,
            forall|env: Env| #[trigger]
                netlist::words(b@, env, r@) == drawn(env, r@.len() as int).1,
            forall|env: Env| #[trigger]
                netlist::bits(b@, env, running@) == drawn(env, r@.len() as int).2,
        decreases polys@.len() - r@.len(),
    {
        let k = r.len();
        let ghost c0 = b@;
        let ghost s1 = *s;
        let ghost r0 = r@;
        let ghost run0 = running@;
        let ghost pw = polys@[k as int]@;
        assert(elems_ok(pw, first.next));
        assert(elems_ok(pw, c0.next));
        assert(polys@[k as int]@.len() == 4);
        s.observe_elems(polys[k].as_slice());
        let ghost s2 = *s;
        assert(s2.wf(c0.next));
        let x = s.sample_elem(b);
        let ghost s3 = *s;
        let ghost c1 = b@;
        let ghost xw = x@;
        assert(elems_ok(pw, c1.next));
        running = stark_wires::round_poly_at(b, &polys[k], &running, &x);
        r.push(x);
        proof {
            assert forall|env: Env| true implies {
                &&& #[trigger] s.st(b@, env) == drawn(env, k + 1).0
                &&& netlist::words(b@, env, r@) == drawn(env, k + 1).1
                &&& netlist::bits(b@, env, running@) == drawn(env, k + 1).2
            } by {
                let all = grids(first, env, polys@);
                assert(all.take(k + 1).drop_last() =~= all.take(k as int));
                assert(all.take(k + 1).last() == all[k as int]);
                assert(all[k as int] == netlist::words(first, env, pw));
                assert(s1.st(c0, env) == drawn(env, k as int).0);
                assert(netlist::words(c0, env, r0) == drawn(env, k as int).1);
                assert(netlist::bits(c0, env, run0) == drawn(env, k as int).2);
                assert(netlist::words(c0, env, pw) == all[k as int]);
                assert(netlist::words(c1, env, pw) == all[k as int]);
                assert(s2.st(c0, env) == protocol::absorb_elts(
                    m,
                    s1.st(c0, env),
                    all[k as int],
                ));
                assert(s3.st(c1, env) == protocol::draw_elt(m, s2.st(c0, env)).0);
                let v = protocol::draw_elt(m, s2.st(c0, env)).1;
                assert(netlist::bits(c1, env, xw) == v);
                assert(netlist::bits(b@, env, xw) == v);
                assert(netlist::bits(c1, env, run0) == netlist::bits(c0, env, run0));
                assert(netlist::words(b@, env, r0) == netlist::words(c0, env, r0));
                assert(netlist::words(b@, env, r@) =~= netlist::words(b@, env, r0).push(
                    netlist::bits(b@, env, xw),
                ));
            }
            assert forall|env: Env| #[trigger]
                netlist::words(b@, env, r@) == drawn(env, k + 1).1 by {
                assert(s.st(b@, env) == drawn(env, k + 1).0);
            }
            assert forall|env: Env| #[trigger]
                netlist::bits(b@, env, running@) == drawn(env, k + 1).2 by {
                assert(s.st(b@, env) == drawn(env, k + 1).0);
            }
        }
    }
    proof {
        assert forall|env: Env| true implies #[trigger] drawn(env, polys@.len() as int)
            == stark_model::zerocheck_draws(
            m,
            s0.st(first, env),
            netlist::bits(first, env, claimed@),
            grids(first, env, polys@),
            Seq::empty(),
            0,
        ) by {
            let all = grids(first, env, polys@);
            assert(all.take(polys@.len() as int) =~= all);
        }
    }
    (r, running)
}

/// The ring switch's sumcheck.
#[verifier::rlimit(40)]
fn switch_rounds<T: CircuitTrait>(b: &mut T, s: &mut Sponge, msgs: &Vec<(Elem, Elem)>) -> (out: Vec<
    Elem,
>)
    requires
        old(b).inv(),
        old(s).wf(old(b)@.next),
        pairs_ok(msgs@, old(b)@.next),
    ensures
        final(b).inv(),
        netlist::ext(old(b)@, final(b)@),
        final(s).wf(final(b)@.next),
        out@.len() == msgs@.len(),
        elems_ok(out@, final(b)@.next),
        forall|env: Env| #[trigger]
            final(s).st(final(b)@, env) == stark_model::switch_draws(
                gadget_machine(),
                old(s).st(old(b)@, env),
                pairs(old(b)@, env, msgs@),
            ).0,
        forall|env: Env| #[trigger]
            netlist::words(final(b)@, env, out@) == stark_model::switch_draws(
                gadget_machine(),
                old(s).st(old(b)@, env),
                pairs(old(b)@, env, msgs@),
            ).1,
{
    let ghost first = b@;
    let ghost s0 = *s;
    let ghost m = gadget_machine();
    let ghost drawn = |env: Env, k: int|
        stark_model::switch_draws(m, s0.st(first, env), pairs(first, env, msgs@).take(k));
    let mut out: Vec<Elem> = Vec::new();
    proof {
        netlist::lemma_ext_refl(first);
        assert forall|env: Env| true implies {
            &&& #[trigger] s.st(b@, env) == drawn(env, 0).0
            &&& netlist::words(b@, env, out@) == drawn(env, 0).1
        } by {
            assert(pairs(first, env, msgs@).take(0) =~= Seq::<(Elt, Elt)>::empty());
            assert(netlist::words(b@, env, out@) =~= Seq::<Elt>::empty());
        }
        assert forall|env: Env| #[trigger] netlist::words(b@, env, out@) == drawn(env, 0).1 by {
            assert(s.st(b@, env) == drawn(env, 0).0);
        }
    }
    while out.len() < msgs.len()
        invariant
            b.inv(),
            m == gadget_machine(),
            drawn == (|env: Env, k: int|
                stark_model::switch_draws(m, s0.st(first, env), pairs(first, env, msgs@).take(k))),
            netlist::ext(first, b@),
            s.wf(b@.next),
            pairs_ok(msgs@, first.next),
            out@.len() <= msgs@.len(),
            elems_ok(out@, b@.next),
            forall|env: Env| #[trigger] s.st(b@, env) == drawn(env, out@.len() as int).0,
            forall|env: Env| #[trigger]
                netlist::words(b@, env, out@) == drawn(env, out@.len() as int).1,
        decreases msgs@.len() - out@.len(),
    {
        let k = out.len();
        let ghost c0 = b@;
        let ghost s1 = *s;
        let ghost out0 = out@;
        let ghost hw = msgs@[k as int].0@;
        let ghost iw = msgs@[k as int].1@;
        assert(elem_ok(msgs@[k as int].0@, first.next) && elem_ok(iw, first.next));
        s.observe_elem(&msgs[k].0);
        s.observe_elem(&msgs[k].1);
        let ghost s2 = *s;
        assert(s2.wf(c0.next));
        let x = s.sample_elem(b);
        let ghost xw = x@;
        out.push(x);
        proof {
            assert forall|env: Env| true implies {
                &&& #[trigger] s.st(b@, env) == drawn(env, k + 1).0
                &&& netlist::words(b@, env, out@) == drawn(env, k + 1).1
            } by {
                let all = pairs(first, env, msgs@);
                assert(all.take(k + 1).drop_last() =~= all.take(k as int));
                assert(all.take(k + 1).last() == all[k as int]);
                assert(s1.st(c0, env) == drawn(env, k as int).0);
                assert(netlist::words(c0, env, out0) == drawn(env, k as int).1);
                assert(netlist::bits(c0, env, hw) == all[k as int].0);
                assert(netlist::bits(c0, env, iw) == all[k as int].1);
                assert(s2.st(c0, env) == protocol::absorb_elt(
                    m,
                    protocol::absorb_elt(m, s1.st(c0, env), all[k as int].0),
                    all[k as int].1,
                ));
                assert(netlist::words(b@, env, out0) == netlist::words(c0, env, out0));
                assert(netlist::words(b@, env, out@) =~= netlist::words(b@, env, out0).push(
                    netlist::bits(b@, env, xw),
                ));
            }
            assert forall|env: Env| #[trigger]
                netlist::words(b@, env, out@) == drawn(env, k + 1).1 by {
                assert(s.st(b@, env) == drawn(env, k + 1).0);
            }
        }
    }
    proof {
        assert forall|env: Env| true implies #[trigger] drawn(env, msgs@.len() as int)
            == stark_model::switch_draws(m, s0.st(first, env), pairs(first, env, msgs@)) by {
            let all = pairs(first, env, msgs@);
            assert(all.take(msgs@.len() as int) =~= all);
        }
    }
    out
}

/// The wires of the bit-level point: the column point, then the row point.
fn joined(c: &Vec<Elem>, r: &Vec<Elem>) -> (p: Vec<Elem>)
    ensures
        p@.len() == c@.len() + r@.len(),
        forall|n: nat| elems_ok(c@, n) && elems_ok(r@, n) ==> #[trigger] elems_ok(p@, n),
        forall|k: Netlist, env: Env| #[trigger]
            netlist::words(k, env, p@) == netlist::words(k, env, c@) + netlist::words(k, env, r@),
{
    let mut p = wires::copy_elems(c.as_slice());
    let ghost pw = p@;
    wires::extend(&mut p, r.as_slice());
    proof {
        assert forall|n: nat| elems_ok(c@, n) && elems_ok(r@, n) implies #[trigger] elems_ok(
            p@,
            n,
        ) by {
            assert(netlist::all_below(pw, 128, n));
            assert(elems_ok(pw, n));
        }
    }
    p
}

/// The transcript between the commitment and the out-of-domain draws.
#[verifier::rlimit(80)]
pub fn prefix<T: CircuitTrait>(
    b: &mut T,
    s: &mut Sponge,
    cfg: &Config,
    inputs: &Inputs,
    profile: &mut Profile,
) -> (ch: Challenges)
    requires
        old(b).inv(),
        old(s).wf(old(b)@.next),
        old(profile).wf(old(b)@),
        sized(*cfg),
        inputs.wires_ok(old(b)@.next),
        inputs.shaped(*cfg),
    ensures
        final(b).inv(),
        netlist::ext(old(b)@, final(b)@),
        final(s).wf(final(b)@.next),
        final(profile).wf(final(b)@),
        ch.wf(*cfg, final(b)@.next),
        forall|env: Env| #[trigger]
            final(s).st(final(b)@, env) == wired(
                gadget_machine(),
                old(s).st(old(b)@, env),
                *cfg,
                inputs.messages(old(b)@, env),
            ).0,
        forall|env: Env| #[trigger]
            ch.draws(final(b)@, env) == wired(
                gadget_machine(),
                old(s).st(old(b)@, env),
                *cfg,
                inputs.messages(old(b)@, env),
            ).1,
        forall|env: Env| #[trigger]
            hold(final(b)@, env, ch.guards@) == guarded(
                *cfg,
                wired(
                    gadget_machine(),
                    old(s).st(old(b)@, env),
                    *cfg,
                    inputs.messages(old(b)@, env),
                ).1,
            ),
{
    let ghost m = gadget_machine();
    let ghost b0 = b@;
    let ghost s0 = *s;
    s.observe_const(b, cfg.seeds.zerocheck.as_slice());
    let ghost s1 = *s;
    let alpha = s.sample_elem(b);
    let ghost b2 = b@;
    let ghost s2 = *s;
    let beta = s.sample_elem(b);
    let ghost b3 = b@;
    let ghost s3 = *s;
    let tau = s.sample_elems(b, cfg.log_height);
    let ghost b4 = b@;
    let ghost s4 = *s;
    let mut guards: Vec<usize> = Vec::new();
    nonzero_checks(b, &tau, &mut guards);
    let ghost b5 = b@;
    let ghost g5 = guards@;
    s.observe_const(b, cfg.seeds.generic_degree.as_slice());
    let ghost s6 = *s;
    s.observe_elem(&inputs.claimed_sum);
    let ghost s7 = *s;
    proof {
        assert(s7.wf(b5.next));
        wire_inputs::lemma_grids_ok(inputs.round_polys@, b0.next, b5.next);
    }
    let (r, final_sum) = zerocheck_rounds(b, s, &inputs.claimed_sum, &inputs.round_polys);
    let ghost b8 = b@;
    let ghost s8 = *s;
    profile.mark(b, Phase::ZerocheckSumcheck);
    let column_vars = cfg.column_vars();
    s.observe_const(b, cfg.seeds.column_batching.as_slice());
    let ghost s9 = *s;
    s.observe_elems(r.as_slice());
    let ghost s10 = *s;
    assert(s10.wf(b8.next));
    assert(elems_ok(inputs.values@, b8.next));
    s.observe_elems(inputs.values.as_slice());
    let ghost s11 = *s;
    assert(s11.wf(b8.next));
    let c = s.sample_elems(b, column_vars);
    let ghost b12 = b@;
    let ghost s12 = *s;
    let point = joined(&c, &r);
    assert(elems_ok(point@, b12.next));
    s.observe_const(b, cfg.seeds.ring_switch.as_slice());
    let ghost s13 = *s;
    s.observe_elems(point.as_slice());
    let ghost s14 = *s;
    assert(s14.wf(b12.next));
    assert(elems_ok(inputs.tensor@, b12.next));
    s.observe_elems(inputs.tensor.as_slice());
    let ghost s15 = *s;
    assert(s15.wf(b12.next));
    match &inputs.successor {
        Some(pair) => {
            assert(elems_ok(pair.0@, b12.next));
            assert(elems_ok(pair.1@, b12.next));
            s.observe_elems(pair.0.as_slice());
            assert(s.wf(b12.next));
            s.observe_elems(pair.1.as_slice());
        },
        None => {},
    }
    let ghost s16 = *s;
    assert(s16.wf(b12.next));
    let r_batch = s.sample_elems(b, ABSORBED);
    let ghost b17 = b@;
    let ghost s17 = *s;
    proof {
        netlist::lemma_ext_refl(b17);
    }
    let alpha_rs = if cfg.sends_successor() {
        Some(s.sample_elem(b))
    } else {
        None
    };
    let ghost b18 = b@;
    let ghost s18 = *s;
    let packed = cfg.packed_vars();
    let limit = if packed < column_vars {
        packed
    } else {
        column_vars
    };
    proper_checks(b, &point, limit, &mut guards);
    let ghost b19 = b@;
    s.observe_const(b, cfg.seeds.quadratic.as_slice());
    let ghost s20 = *s;
    proof {
        let some: Env = |i: int| false;
        lemma_pairs_ext(b0, b19, some, inputs.rs_sumcheck@);
    }
    let r_prime = switch_rounds(b, s, &inputs.rs_sumcheck);
    let ghost b21 = b@;
    let ghost s21 = *s;
    s.observe_elem(&inputs.final_eval);
    profile.mark(b, Phase::StarkTranscript);
    let surviving = wires::copy_elems(r_prime.as_slice());
    let ch = Challenges {
        alpha,
        beta,
        tau,
        r,
        final_sum,
        c,
        r_batch,
        alpha_rs,
        r_prime,
        surviving,
        guards,
    };
    proof {
        assert(s.wf(b@.next));
        assert(netlist::all_below(ch.surviving@, 128, b@.next));
        assert forall|env: Env| true implies {
            let w = wired(m, s0.st(b0, env), *cfg, inputs.messages(b0, env));
            &&& #[trigger] s.st(b@, env) == w.0
            &&& ch.draws(b@, env) == w.1
            &&& hold(b@, env, ch.guards@) == guarded(*cfg, w.1)
        } by {
            let p = inputs.messages(b0, env);
            lemma_inputs_ext(*inputs, b0, b5, env);
            lemma_inputs_ext(*inputs, b0, b8, env);
            lemma_inputs_ext(*inputs, b0, b12, env);
            lemma_inputs_ext(*inputs, b0, b19, env);
            lemma_inputs_ext(*inputs, b0, b21, env);
            let (t3, alpha_m, beta_m) = stark_model::first_draws(m, s0.st(b0, env), *cfg);
            assert(s1.st(b0, env) == protocol::absorb_all(
                m,
                s0.st(b0, env),
                cfg.seeds.zerocheck@,
            ));
            assert(s2.st(b2, env) == protocol::draw_elt(m, s1.st(b0, env)).0);
            assert(netlist::bits(b2, env, alpha@) == alpha_m);
            assert(s3.st(b3, env) == t3);
            assert(netlist::bits(b3, env, beta@) == beta_m);
            let (t4, tau_m) = protocol::draw_elts(m, t3, cfg.log_height as nat);
            assert(s4.st(b4, env) == t4);
            assert(netlist::words(b4, env, tau@) == tau_m);
            assert(s4.st(b5, env) == t4);
            assert(hold(b4, env, Seq::<usize>::empty()));
            assert(hold(b5, env, g5) == all_nonzero(tau_m, tau@.len() as int));
            // The zerocheck and the column batching.
            assert(s6.st(b5, env) == protocol::absorb_all(
                m,
                t4,
                cfg.seeds.generic_degree@,
            ));
            assert(s7.st(b5, env) == protocol::absorb_elt(m, s6.st(b5, env), p.claimed_sum));
            let z = stark_model::zerocheck_draws(
                m,
                s7.st(b5, env),
                p.claimed_sum,
                p.round_polys,
                p.pow_witnesses,
                0,
            );
            lemma_zerocheck_bare(
                m,
                s7.st(b5, env),
                p.claimed_sum,
                p.round_polys,
                p.pow_witnesses,
                Seq::empty(),
            );
            assert(s8.st(b8, env) == z.0);
            assert(netlist::words(b8, env, r@) == z.1);
            assert(netlist::bits(b8, env, final_sum@) == z.2);
            assert(s9.st(b8, env) == protocol::absorb_all(
                m,
                z.0,
                cfg.seeds.column_batching@,
            ));
            assert(s10.st(b8, env) == protocol::absorb_elts(m, s9.st(b8, env), z.1));
            assert(s11.st(b8, env) == protocol::absorb_elts(m, s10.st(b8, env), p.values));
            let (t12, c_m) = protocol::draw_elts(
                m,
                s11.st(b8, env),
                stark_model::column_vars(*cfg),
            );
            assert(s12.st(b12, env) == t12);
            assert(netlist::words(b12, env, c@) == c_m);
            assert(stark_model::batching_draws(m, t4, *cfg, p) == (t12, z.1, z.2, c_m, true));
            // The ring switch's statement.
            let pt = c_m + z.1;
            assert(netlist::words(b12, env, r@) == z.1);
            assert(netlist::words(b12, env, point@) == pt);
            assert(s13.st(b12, env) == protocol::absorb_all(m, t12, cfg.seeds.ring_switch@));
            assert(s14.st(b12, env) == protocol::absorb_elts(m, s13.st(b12, env), pt));
            assert(s15.st(b12, env) == protocol::absorb_elts(m, s14.st(b12, env), p.tensor));
            let t16 = match p.successor {
                Some((x, y)) => protocol::absorb_elts(
                    m,
                    protocol::absorb_elts(m, s15.st(b12, env), x),
                    y,
                ),
                None => s15.st(b12, env),
            };
            assert(s16.st(b12, env) == t16);
            let (t17, rb) = protocol::draw_elts(m, t16, 7);
            assert(s17.st(b17, env) == t17);
            assert(netlist::words(b17, env, r_batch@) == rb);
            let st = stark_model::statement_draws(m, t12, *cfg, p, pt);
            assert(s18.st(b18, env) == st.0);
            assert(st.1 == rb);
            assert(s18.st(b19, env) == st.0);
            // The ring switch's sumcheck.
            assert(s20.st(b19, env) == protocol::absorb_all(m, st.0, cfg.seeds.quadratic@));
            let (t21, rp) = stark_model::switch_draws(m, s20.st(b19, env), p.rs_sumcheck);
            assert(s21.st(b21, env) == t21);
            assert(netlist::words(b21, env, r_prime@) == rp);
            assert(s.st(b21, env) == protocol::absorb_elt(m, t21, p.final_eval));
            assert(netlist::words(b21, env, ch.surviving@) == rp);
            // Nothing drawn changes afterwards.
            assert(netlist::bits(b21, env, alpha@) == alpha_m);
            assert(netlist::bits(b21, env, beta@) == beta_m);
            assert(netlist::words(b21, env, tau@) == tau_m);
            assert(netlist::words(b21, env, ch.r@) == z.1);
            assert(netlist::bits(b21, env, ch.final_sum@) == z.2);
            assert(netlist::words(b21, env, ch.c@) == c_m);
            assert(netlist::words(b21, env, ch.r_batch@) == rb);
            if ch.alpha_rs is Some {
                let a = (ch.alpha_rs->0)@;
                assert(netlist::bits(b21, env, a) == netlist::bits(b18, env, a));
                assert(st.2 == Some(netlist::bits(b18, env, a)));
            }
            let w = wired(m, s0.st(b0, env), *cfg, p);
            assert(w.1.r_prime == rp && w.1.alpha_rs == st.2 && w.1.r_batch == rb);
            assert(w.1.tau == tau_m && w.1.r == z.1 && w.1.c == c_m && w.1.final_sum == z.2);
            assert(ch.draws(b21, env) == w.1);
            // The guards.
            assert(netlist::words(b18, env, point@) == pt);
            assert(netlist::bits(b18, env, g5) == netlist::bits(b5, env, g5));
            assert(netlist::bits(b21, env, ch.guards@) == netlist::bits(b19, env, ch.guards@));
            assert(hold(b19, env, ch.guards@) == (hold(b18, env, g5) && all_proper(
                netlist::words(b18, env, point@),
                limit as int,
            )));
            assert(hold(b21, env, ch.guards@) == (all_nonzero(tau_m, tau@.len() as int)
                && all_proper(pt, limit as int)));
            let f = stark_model::fixable(*cfg, pt);
            assert(f == pt.take(limit as int));
            if all_proper(pt, limit as int) {
                assert forall|i: int| 0 <= i < f.len() implies proper(#[trigger] f[i]) by {
                    assert(proper(pt[i]));
                }
            }
            if forall|i: int| 0 <= i < f.len() ==> proper(#[trigger] f[i]) {
                assert forall|i: int| 0 <= i < limit implies proper(#[trigger] pt[i]) by {
                    assert(proper(f[i]));
                }
            }
            assert(tau_m.len() == tau@.len());
        }
        assert forall|env: Env| #[trigger]
            ch.draws(b@, env) == wired(
                m,
                s0.st(b0, env),
                *cfg,
                inputs.messages(b0, env),
            ).1 by {
            assert(s.st(b@, env) == wired(
                m,
                s0.st(b0, env),
                *cfg,
                inputs.messages(b0, env),
            ).0);
        }
        assert forall|env: Env| #[trigger]
            hold(b@, env, ch.guards@) == guarded(
                *cfg,
                wired(m, s0.st(b0, env), *cfg, inputs.messages(b0, env)).1,
            ) by {
            assert(s.st(b@, env) == wired(
                m,
                s0.st(b0, env),
                *cfg,
                inputs.messages(b0, env),
            ).0);
        }
    }
    ch
}

// ---------------------------------------------------------------------------
// The checks.
// ---------------------------------------------------------------------------

/// The factors `1 + t_i + x_i`.
fn eq_factors<T: CircuitTrait>(b: &mut T, t: &Vec<Elem>, x: &Vec<Elem>) -> (out: Vec<Elem>)
    requires
        old(b).inv(),
        t@.len() == x@.len(),
        elems_ok(t@, old(b)@.next),
        elems_ok(x@, old(b)@.next),
    ensures
        final(b).inv(),
        netlist::ext(old(b)@, final(b)@),
        out@.len() == t@.len(),
        elems_ok(out@, final(b)@.next),
        forall|env: Env| #[trigger]
            netlist::words(final(b)@, env, out@) == stark_model::eq_factors(
                netlist::words(old(b)@, env, t@),
                netlist::words(old(b)@, env, x@),
            ),
{
    let ghost first = b@;
    let one = wires::one_elem(b);
    let mut out: Vec<Elem> = Vec::new();
    proof {
        netlist::lemma_ext_refl(first);
    }
    while out.len() < t.len()
        invariant
            b.inv(),
            netlist::ext(first, b@),
            t@.len() == x@.len(),
            elems_ok(t@, first.next),
            elems_ok(x@, first.next),
            elem_ok(one@, first.next),
            forall|env: Env| #[trigger] netlist::bits(first, env, one@) == field::one128(),
            out@.len() <= t@.len(),
            elems_ok(out@, b@.next),
            forall|env: Env, i: int|
                0 <= i < out@.len() ==> #[trigger] netlist::bits(b@, env, out@[i]@)
                    == field::plus(
                    field::plus(field::one128(), netlist::bits(first, env, t@[i]@)),
                    netlist::bits(first, env, x@[i]@),
                ),
        decreases t@.len() - out@.len(),
    {
        let k = out.len();
        let ghost c0 = b@;
        let ghost out0 = out@;
        assert(elem_ok(t@[k as int]@, first.next));
        assert(elem_ok(x@[k as int]@, first.next));
        let tx = crate::whir_gc::wires::add(b, &t[k], &x[k]);
        let ghost c1 = b@;
        let f = crate::whir_gc::wires::add(b, &one, &tx);
        out.push(f);
        proof {
            assert forall|env: Env, i: int|
                0 <= i < out@.len() implies #[trigger] netlist::bits(b@, env, out@[i]@)
                == field::plus(
                field::plus(field::one128(), netlist::bits(first, env, t@[i]@)),
                netlist::bits(first, env, x@[i]@),
            ) by {
                if i < k {
                    assert(out@[i] == out0[i]);
                    assert(elem_ok(out0[i]@, c0.next));
                    assert(netlist::bits(c0, env, out0[i]@) == netlist::bits(b@, env, out0[i]@));
                } else {
                    let te = netlist::bits(first, env, t@[i]@);
                    let xe = netlist::bits(first, env, x@[i]@);
                    assert(netlist::bits(c0, env, t@[i]@) == te);
                    assert(netlist::bits(c0, env, x@[i]@) == xe);
                    assert(netlist::bits(c1, env, one@) == field::one128());
                    field::lemma_level_128();
                    field::law_plus_assoc(field::one128(), te, xe);
                }
            }
        }
    }
    proof {
        assert forall|env: Env| #[trigger]
            netlist::words(b@, env, out@) == stark_model::eq_factors(
                netlist::words(first, env, t@),
                netlist::words(first, env, x@),
            ) by {
            let want = stark_model::eq_factors(
                netlist::words(first, env, t@),
                netlist::words(first, env, x@),
            );
            assert forall|i: int| 0 <= i < out@.len() implies netlist::words(b@, env, out@)[i]
                == want[i] by {
                assert(netlist::bits(b@, env, out@[i]@) == field::plus(
                    field::plus(field::one128(), netlist::bits(first, env, t@[i]@)),
                    netlist::bits(first, env, x@[i]@),
                ));
            }
            assert(netlist::words(b@, env, out@) =~= want);
        }
    }
    out
}

/// A part of a list.
proof fn lemma_part_ok(xs: Seq<Elem>, lo: int, hi: int, n: nat)
    requires
        elems_ok(xs, n),
        0 <= lo <= hi <= xs.len(),
    ensures
        elems_ok(xs.subrange(lo, hi), n),
        forall|c: Netlist, env: Env| #[trigger]
            netlist::words(c, env, xs.subrange(lo, hi)) == netlist::words(c, env, xs).subrange(
                lo,
                hi,
            ),
{
    let p = xs.subrange(lo, hi);
    assert forall|i: int| 0 <= i < p.len() implies (#[trigger] p[i])@.len() == 128
        && netlist::below(p[i]@, n) by {
        assert(p[i] == xs[lo + i]);
        assert(xs[lo + i]@.len() == 128 && netlist::below(xs[lo + i]@, n));
    }
    assert forall|c: Netlist, env: Env| #[trigger]
        netlist::words(c, env, p) == netlist::words(c, env, xs).subrange(lo, hi) by {
        assert(netlist::words(c, env, p) =~= netlist::words(c, env, xs).subrange(lo, hi));
    }
}

/// The first elements, and the rest.
fn halves(xs: &Vec<Elem>, k: usize, Ghost(n): Ghost<nat>) -> (r: (&[Elem], &[Elem]))
    requires
        k <= xs@.len(),
        elems_ok(xs@, n),
    ensures
        r.0@.len() == k,
        r.1@.len() == xs@.len() - k,
        elems_ok(r.0@, n),
        elems_ok(r.1@, n),
        forall|c: Netlist, env: Env| #[trigger]
            netlist::words(c, env, r.0@) == netlist::words(c, env, xs@).take(k as int),
        forall|c: Netlist, env: Env| #[trigger]
            netlist::words(c, env, r.1@) == netlist::words(c, env, xs@).skip(k as int),
{
    let r = xs.as_slice().split_at(k);
    proof {
        lemma_part_ok(xs@, 0, k as int, n);
        lemma_part_ok(xs@, k as int, xs@.len() as int, n);
        assert(r.0@ =~= xs@.subrange(0, k as int));
        assert(r.1@ =~= xs@.subrange(k as int, xs@.len() as int));
        assert forall|c: Netlist, env: Env| #[trigger]
            netlist::words(c, env, r.0@) == netlist::words(c, env, xs@).take(k as int) by {
            assert(netlist::words(c, env, xs@.subrange(0, k as int)) == netlist::words(
                c,
                env,
                xs@,
            ).subrange(0, k as int));
        }
        assert forall|c: Netlist, env: Env| #[trigger]
            netlist::words(c, env, r.1@) == netlist::words(c, env, xs@).skip(k as int) by {
            assert(netlist::words(c, env, xs@.subrange(k as int, xs@.len() as int))
                == netlist::words(c, env, xs@).subrange(k as int, xs@.len() as int));
            assert(netlist::words(c, env, xs@).subrange(k as int, xs@.len() as int)
                =~= netlist::words(c, env, xs@).skip(k as int));
        }
    }
    r
}

/// The zerocheck's closing identity. 1 iff it holds.
#[verifier::rlimit(40)]
fn zerocheck_closes<T: CircuitTrait>(
    b: &mut T,
    cfg: &Config,
    air: &Air,
    inputs: &Inputs,
    ch: &Challenges,
    profile: &mut Profile,
) -> (check: usize)
    requires
        old(b).inv(),
        old(profile).wf(old(b)@),
        inputs.wires_ok(old(b)@.next),
        inputs.shaped(*cfg),
        ch.wf(*cfg, old(b)@.next),
        air.wf(cfg.width as nat),
    ensures
        final(b).inv(),
        netlist::ext(old(b)@, final(b)@),
        final(profile).wf(final(b)@),
        check < final(b)@.next,
        forall|env: Env| #[trigger]
            netlist::value(final(b)@, env, check as int) == stark_model::zerocheck_closes(
                *cfg,
                inputs.messages(old(b)@, env),
                *air,
                ch.draws(old(b)@, env),
            ),
{
    let ghost b0 = b@;
    let boundary = Boundary::at(b, ch.r.as_slice());
    let ghost b1 = b@;
    assert(elems_ok(inputs.values@, b1.next));
    let (local, next) = halves(&inputs.values, cfg.width, Ghost(b1.next));
    let g = stark_wires::air_at(b, air, local, next, &boundary, &ch.alpha);
    let ghost b2 = b@;
    profile.mark(b, Phase::AirConstraints);
    let factors = eq_factors(b, &ch.tau, &ch.r);
    let ghost b3 = b@;
    let eq_at = stark_wires::product(b, factors.as_slice());
    let ghost b4 = b@;
    let expected = crate::whir_gc::wires::mul(b, &eq_at, &g);
    let ghost b5 = b@;
    let check = wires::equal(b, ch.final_sum.as_slice(), expected.as_slice());
    profile.mark(b, Phase::ZerocheckClosing);
    proof {
        assert forall|env: Env| #[trigger]
            netlist::value(b@, env, check as int) == stark_model::zerocheck_closes(
                *cfg,
                inputs.messages(b0, env),
                *air,
                ch.draws(b0, env),
            ) by {
            let p = inputs.messages(b0, env);
            let d = ch.draws(b0, env);
            let w = cfg.width as int;
            assert(boundary.model(b1, env) == stark_model::boundary_at(d.r));
            assert(netlist::words(b1, env, inputs.values@) == p.values);
            assert(netlist::words(b1, env, local@) == p.values.take(w));
            assert(netlist::words(b1, env, next@) == p.values.skip(w));
            assert(netlist::bits(b1, env, ch.alpha@) == d.alpha);
            let gm = stark_model::air_at(
                *air,
                p.values.take(w),
                p.values.skip(w),
                stark_model::boundary_at(d.r),
                d.alpha,
            );
            assert(netlist::bits(b2, env, g@) == gm);
            assert(netlist::words(b2, env, ch.tau@) == d.tau);
            assert(netlist::words(b2, env, ch.r@) == d.r);
            assert(netlist::words(b3, env, factors@) == stark_model::eq_factors(d.tau, d.r));
            assert(netlist::bits(b4, env, g@) == gm);
            assert(netlist::bits(b5, env, ch.final_sum@) == d.final_sum);
        }
    }
    check
}

/// Shifting the weights by one is shifting the values.
proof fn lemma_shifted_dot(values: Seq<Elt>, low: Seq<Elt>, w: Seq<Elt>, k: nat)
    requires
        0 < values.len(),
        k < values.len(),
        values.len() <= w.len(),
        forall|i: int| 0 <= i < values.len() ==> (#[trigger] values[i]).len() == 128,
        w[0] == field::zero128(),
        forall|i: int| 0 < i < values.len() ==> #[trigger] w[i] == low[i - 1],
    ensures
        stark_model::dot(values.take(k as int + 1), w) == stark_model::dot(
            values.skip(1).take(k as int),
            low,
        ),
    decreases k,
{
    field::lemma_level_128();
    let a = values.take(k as int + 1);
    let c = values.skip(1).take(k as int);
    if k == 0 {
        assert(a.drop_last() =~= Seq::<Elt>::empty());
        assert(a.last() == values[0]);
        assert(c =~= Seq::<Elt>::empty());
        assert(values[0].len() == 128);
        assert(stark_model::dot(a.drop_last(), w) == field::zero128());
        assert(stark_model::dot(c, low) == field::zero128());
        assert(a.len() - 1 == 0);
        field::lemma_times_zero(values[0]);
        field::law_plus_self(field::zero128());
    } else {
        lemma_shifted_dot(values, low, w, (k - 1) as nat);
        assert(a.drop_last() =~= values.take(k as int));
        assert(c.drop_last() =~= values.skip(1).take(k - 1));
        assert(a.last() == values[k as int]);
        assert(c.last() == values.skip(1)[k - 1]);
        assert(a.len() == k + 1 && c.len() == k);
        assert(w[k as int] == low[k - 1]);
    }
}

/// The weights of the rows before, for a trace that fits one packed element.
#[verifier::rlimit(30)]
fn successor_weights<T: CircuitTrait>(b: &mut T, cfg: &Config, low: &Vec<Elem>) -> (out: Vec<Elem>)
    requires
        old(b).inv(),
        !stark_model::sends_successor(*cfg),
        low@.len() == DIM,
        elems_ok(low@, old(b)@.next),
    ensures
        final(b).inv(),
        netlist::ext(old(b)@, final(b)@),
        out@.len() == DIM,
        elems_ok(out@, final(b)@.next),
        forall|env: Env| #[trigger]
            netlist::words(final(b)@, env, out@) == stark_model::successor_weights(
                *cfg,
                netlist::words(old(b)@, env, low@),
            ),
{
    let ghost first = b@;
    let height = reference::two_to(cfg.log_height);
    let ghost want = |env: Env|
        stark_model::successor_weights(*cfg, netlist::words(first, env, low@));
    let mut out: Vec<Elem> = Vec::new();
    proof {
        netlist::lemma_ext_refl(first);
    }
    while out.len() < DIM
        invariant
            b.inv(),
            netlist::ext(first, b@),
            !stark_model::sends_successor(*cfg),
            height == pow2(cfg.log_height as nat),
            height >= 1,
            low@.len() == DIM,
            elems_ok(low@, first.next),
            want == (|env: Env|
                stark_model::successor_weights(*cfg, netlist::words(first, env, low@))),
            out@.len() <= DIM,
            elems_ok(out@, b@.next),
            forall|env: Env, v: int|
                0 <= v < out@.len() ==> #[trigger] netlist::bits(b@, env, out@[v]@) == want(
                    env,
                )[v],
        decreases DIM - out@.len(),
    {
        let v = out.len();
        let ghost c0 = b@;
        let ghost out0 = out@;
        let row = v % height;
        proof {
            vstd::arithmetic::div_mod::lemma_small_mod(0, height as nat);
            netlist::lemma_ext_refl(c0);
            assert(elem_ok(low@[v as int]@, first.next));
            if v > 0 {
                assert(elem_ok(low@[v - 1]@, first.next));
            }
        }
        let zero = wires::zero_elem(b);
        let ghost zw = zero@;
        let mut acc = zero;
        if row != 0 {
            acc = crate::whir_gc::wires::add(b, &acc, &low[v - 1]);
        }
        let ghost c1 = b@;
        let ghost a1 = acc@;
        if row == height - 1 {
            acc = crate::whir_gc::wires::add(b, &acc, &low[v]);
        }
        let ghost aw = acc@;
        out.push(acc);
        proof {
            assert forall|env: Env| true implies #[trigger] netlist::bits(b@, env, aw) == want(
                env,
            )[v as int] by {
                let l = netlist::words(first, env, low@);
                assert(netlist::bits(c0, env, zw) == field::zero128());
                assert(netlist::bits(c1, env, low@[v as int]@) == l[v as int]);
                if v > 0 {
                    assert(netlist::bits(c0, env, low@[v - 1]@) == l[v - 1]);
                }
                let below = if row != 0 {
                    field::plus(field::zero128(), l[v - 1])
                } else {
                    field::zero128()
                };
                assert(netlist::bits(c1, env, a1) == below);
            }
            assert forall|i: int| 0 <= i < out@.len() implies (#[trigger] out@[i])@.len() == 128
                && netlist::below(out@[i]@, b@.next) by {
                if i < v {
                    assert(out@[i] == out0[i]);
                    assert(out0[i]@.len() == 128 && netlist::below(out0[i]@, c0.next));
                }
            }
            assert forall|env: Env, i: int|
                0 <= i < out@.len() implies #[trigger] netlist::bits(b@, env, out@[i]@) == want(
                env,
            )[i] by {
                if i < v {
                    assert(out@[i] == out0[i]);
                    assert(elem_ok(out0[i]@, c0.next));
                    assert(netlist::bits(c0, env, out0[i]@) == netlist::bits(b@, env, out0[i]@));
                } else {
                    assert(netlist::bits(b@, env, aw) == want(env)[v as int]);
                }
            }
        }
    }
    proof {
        assert forall|env: Env| #[trigger]
            netlist::words(b@, env, out@) == stark_model::successor_weights(
                *cfg,
                netlist::words(first, env, low@),
            ) by {
            assert forall|i: int| 0 <= i < DIM implies netlist::words(b@, env, out@)[i]
                == want(env)[i] by {
                assert(netlist::bits(b@, env, out@[i]@) == want(env)[i]);
            }
            assert(netlist::words(b@, env, out@) =~= want(env));
        }
    }
    out
}

/// The tensors' reading of the next row.
#[verifier::rlimit(60)]
fn successor_reading<T: CircuitTrait>(
    b: &mut T,
    cfg: &Config,
    columns: &Vec<Elem>,
    successor: &Option<(Vec<Elem>, Vec<Elem>)>,
    low: &Vec<Elem>,
) -> (v: Elem)
    requires
        old(b).inv(),
        columns@.len() == DIM,
        elems_ok(columns@, old(b)@.next),
        low@.len() == DIM,
        elems_ok(low@, old(b)@.next),
        successor is Some <==> stark_model::sends_successor(*cfg),
        successor matches Some((c, l)) ==> {
            &&& c@.len() == DIM
            &&& l@.len() == DIM
            &&& elems_ok(c@, old(b)@.next)
            &&& elems_ok(l@, old(b)@.next)
        },
    ensures
        final(b).inv(),
        netlist::ext(old(b)@, final(b)@),
        elem_ok(v@, final(b)@.next),
        forall|env: Env| #[trigger]
            netlist::bits(final(b)@, env, v@) == ({
                let l = netlist::words(old(b)@, env, low@);
                let inner = stark_model::dot(
                    netlist::words(old(b)@, env, columns@),
                    stark_model::successor_weights(*cfg, l),
                );
                match *successor {
                    Some((x, y)) => field::plus(
                        inner,
                        field::times(
                            l[DIM - 1],
                            field::plus(
                                stark_model::transposed(
                                    netlist::words(old(b)@, env, x@),
                                )[0],
                                stark_model::transposed(
                                    netlist::words(old(b)@, env, y@),
                                )[DIM - 1],
                            ),
                        ),
                    ),
                    None => inner,
                }
            }),
{
    let ghost b0 = b@;
    match successor {
        Some(pair) => {
            let (first_column, rest) = halves(columns, 1, Ghost(b0.next));
            let (head, last_entry) = halves(low, DIM - 1, Ghost(b0.next));
            let inner = stark_wires::dot(b, rest, head);
            let ghost b1 = b@;
            proof {
                assert forall|i: int| 0 <= i < DIM implies (#[trigger] pair.0@[i])@.len() == 128 by {
                    assert(elem_ok(pair.0@[i]@, b0.next));
                }
                assert forall|i: int| 0 <= i < DIM implies (#[trigger] pair.1@[i])@.len() == 128 by {
                    assert(elem_ok(pair.1@[i]@, b0.next));
                }
            }
            let carry = stark_wires::transpose(&pair.0);
            let last = stark_wires::transpose(&pair.1);
            proof {
                assert(elems_ok(carry@, b0.next));
                assert(elems_ok(last@, b0.next));
                assert(elem_ok(carry@[0]@, b0.next));
                assert(elem_ok(last@[DIM - 1]@, b0.next));
                assert(elem_ok(low@[DIM - 1]@, b0.next));
            }
            let edge = crate::whir_gc::wires::add(b, &carry[0], &last[DIM - 1]);
            let ghost b2 = b@;
            let edged = crate::whir_gc::wires::mul(b, &low[DIM - 1], &edge);
            let ghost b3 = b@;
            let v = crate::whir_gc::wires::add(b, &inner, &edged);
            proof {
                assert forall|env: Env| #[trigger]
                    netlist::bits(b@, env, v@) == ({
                        let l = netlist::words(b0, env, low@);
                        field::plus(
                            stark_model::dot(
                                netlist::words(b0, env, columns@),
                                stark_model::successor_weights(*cfg, l),
                            ),
                            field::times(
                                l[DIM - 1],
                                field::plus(
                                    stark_model::transposed(
                                        netlist::words(b0, env, pair.0@),
                                    )[0],
                                    stark_model::transposed(
                                        netlist::words(b0, env, pair.1@),
                                    )[DIM - 1],
                                ),
                            ),
                        )
                    }) by {
                    let l = netlist::words(b0, env, low@);
                    let cols = netlist::words(b0, env, columns@);
                    let w = stark_model::successor_weights(*cfg, l);
                    assert forall|i: int| 0 <= i < cols.len() implies (#[trigger] cols[i]).len()
                        == 128 by {
                        assert(elem_ok(columns@[i]@, b0.next));
                    }
                    lemma_shifted_dot(cols, l, w, 127);
                    assert(cols.take(128) =~= cols);
                    assert(cols.skip(1).take(127) =~= cols.skip(1));
                    assert(netlist::words(b0, env, rest@) == cols.skip(1));
                    assert(netlist::words(b0, env, head@) == l.take(127));
                    lemma_dot_take(cols.skip(1), l, 127);
                    assert(netlist::bits(b1, env, inner@) == stark_model::dot(cols, w));
                    assert(netlist::bits(b3, env, inner@) == netlist::bits(b1, env, inner@));
                    let c0 = stark_model::transposed(netlist::words(b0, env, pair.0@))[0];
                    let l0 = stark_model::transposed(netlist::words(b0, env, pair.1@))[DIM - 1];
                    assert(netlist::words(b0, env, carry@)[0] == c0);
                    assert(netlist::words(b0, env, last@)[DIM - 1] == l0);
                    assert(netlist::bits(b1, env, carry@[0]@) == c0);
                    assert(netlist::bits(b1, env, last@[DIM - 1]@) == l0);
                    assert(netlist::bits(b2, env, low@[DIM - 1]@) == l[DIM - 1]);
                }
            }
            v
        },
        None => {
            let weights = successor_weights(b, cfg, low);
            let ghost b1 = b@;
            let v = stark_wires::dot(b, columns.as_slice(), weights.as_slice());
            proof {
                assert forall|env: Env| #[trigger]
                    netlist::bits(b@, env, v@) == stark_model::dot(
                        netlist::words(b0, env, columns@),
                        stark_model::successor_weights(*cfg, netlist::words(b0, env, low@)),
                    ) by {
                    assert(netlist::words(b1, env, columns@) == netlist::words(
                        b0,
                        env,
                        columns@,
                    ));
                }
            }
            v
        },
    }
}

/// A dot product reads as many weights as there are values.
proof fn lemma_dot_take(values: Seq<Elt>, w: Seq<Elt>, k: int)
    requires
        values.len() <= k <= w.len(),
    ensures
        stark_model::dot(values, w.take(k)) == stark_model::dot(values, w),
    decreases values.len(),
{
    if values.len() > 0 {
        lemma_dot_take(values.drop_last(), w, k);
    }
}

/// The tensors' readings of the current and the next row against the batched
/// ones. 1 iff they agree.
#[verifier::rlimit(60)]
fn readings<T: CircuitTrait>(
    b: &mut T,
    cfg: &Config,
    inputs: &Inputs,
    ch: &Challenges,
    profile: &mut Profile,
) -> (r: (usize, usize))
    requires
        old(b).inv(),
        old(profile).wf(old(b)@),
        sized(*cfg),
        inputs.wires_ok(old(b)@.next),
        inputs.shaped(*cfg),
        ch.wf(*cfg, old(b)@.next),
    ensures
        final(b).inv(),
        netlist::ext(old(b)@, final(b)@),
        final(profile).wf(final(b)@),
        r.0 < final(b)@.next,
        r.1 < final(b)@.next,
        forall|env: Env| #[trigger]
            netlist::value(final(b)@, env, r.0 as int) == stark_model::incoming_ok(
                *cfg,
                inputs.messages(old(b)@, env),
                ch.draws(old(b)@, env),
            ),
        forall|env: Env| #[trigger]
            netlist::value(final(b)@, env, r.1 as int) == stark_model::successor_ok(
                *cfg,
                inputs.messages(old(b)@, env),
                ch.draws(old(b)@, env),
            ),
{
    let ghost b0 = b@;
    let column_vars = cfg.column_vars();
    let eq_c = stark_wires::eq_table(b, ch.c.as_slice());
    let ghost b1 = b@;
    assert(elems_ok(inputs.values@, b1.next));
    let (local, next) = halves(&inputs.values, cfg.width, Ghost(b1.next));
    let current = stark_wires::dot(b, local, eq_c.as_slice());
    let ghost b2 = b@;
    assert(elems_ok(next@, b2.next));
    let following = stark_wires::dot(b, next, eq_c.as_slice());
    let ghost b3 = b@;
    profile.mark(b, Phase::ColumnCombination);
    let point = joined(&ch.c, &ch.r);
    let len = point.len();
    assert(elems_ok(point@, b3.next));
    let (high, absorbed) = halves(&point, len - ABSORBED, Ghost(b3.next));
    let low = stark_wires::eq_table(b, absorbed);
    let ghost b4 = b@;
    proof {
        vstd::arithmetic::power2::lemma2_to64();
        assert forall|i: int| 0 <= i < DIM implies (#[trigger] inputs.tensor@[i])@.len()
            == 128 by {
            assert(elem_ok(inputs.tensor@[i]@, b0.next));
        }
    }
    let columns = stark_wires::transpose(&inputs.tensor);
    assert(elems_ok(columns@, b0.next));
    assert(elems_ok(columns@, b4.next));
    let incoming = stark_wires::dot(b, columns.as_slice(), low.as_slice());
    let ghost b5 = b@;
    let first = wires::equal(b, incoming.as_slice(), current.as_slice());
    let ghost b6 = b@;
    assert(elems_ok(columns@, b6.next));
    let reading = successor_reading(b, cfg, &columns, &inputs.successor, &low);
    let ghost b7 = b@;
    let second = wires::equal(b, reading.as_slice(), following.as_slice());
    profile.mark(b, Phase::RingSwitchStatement);
    proof {
        assert forall|env: Env| true implies {
            let p = inputs.messages(b0, env);
            let d = ch.draws(b0, env);
            &&& #[trigger] netlist::value(b@, env, first as int) == stark_model::incoming_ok(
                *cfg,
                p,
                d,
            )
            &&& netlist::value(b@, env, second as int) == stark_model::successor_ok(*cfg, p, d)
        } by {
            let p = inputs.messages(b0, env);
            let d = ch.draws(b0, env);
            let w = cfg.width as int;
            let table = stark_model::eq_table(d.c);
            assert(netlist::words(b1, env, eq_c@) == table);
            assert(netlist::words(b2, env, eq_c@) == table);
            assert(netlist::words(b1, env, inputs.values@) == p.values);
            assert(netlist::words(b1, env, local@) == p.values.take(w));
            assert(netlist::words(b1, env, next@) == p.values.skip(w));
            assert(netlist::words(b2, env, next@) == p.values.skip(w));
            let cur = stark_model::dot(p.values.take(w), table);
            let fol = stark_model::dot(p.values.skip(w), table);
            assert(netlist::bits(b2, env, current@) == cur);
            assert(netlist::bits(b3, env, following@) == fol);
            let pt = stark_model::bit_point(d);
            assert(netlist::words(b3, env, ch.c@) == d.c);
            assert(netlist::words(b3, env, ch.r@) == d.r);
            assert(netlist::words(b3, env, point@) == pt);
            let lowm = stark_model::eq_low(d);
            assert(netlist::words(b3, env, absorbed@) == pt.skip(pt.len() - 7));
            assert(netlist::words(b4, env, low@) == lowm);
            assert(netlist::words(b4, env, inputs.tensor@) == p.tensor);
            let cols = stark_model::transposed(p.tensor);
            assert(netlist::words(b4, env, columns@) == cols);
            assert(netlist::bits(b5, env, incoming@) == stark_model::dot(cols, lowm));
            assert(netlist::bits(b5, env, current@) == cur);
            assert(netlist::value(b6, env, first as int) == stark_model::incoming_ok(
                *cfg,
                p,
                d,
            ));
            assert(netlist::words(b6, env, low@) == lowm);
            assert(netlist::words(b6, env, columns@) == cols);
            if inputs.successor is Some {
                let x = (inputs.successor->0).0;
                let y = (inputs.successor->0).1;
                assert(netlist::words(b6, env, x@) == netlist::words(b0, env, x@));
                assert(netlist::words(b6, env, y@) == netlist::words(b0, env, y@));
            }
            assert(netlist::bits(b7, env, reading@) == stark_model::successor_reading(
                *cfg,
                p,
                d,
            ));
            assert(netlist::bits(b7, env, following@) == fol);
        }
        assert forall|env: Env| #[trigger]
            netlist::value(b@, env, second as int) == stark_model::successor_ok(
                *cfg,
                inputs.messages(b0, env),
                ch.draws(b0, env),
            ) by {
            assert(netlist::value(b@, env, first as int) == stark_model::incoming_ok(
                *cfg,
                inputs.messages(b0, env),
                ch.draws(b0, env),
            ));
        }
    }
    (first, second)
}

/// `x + a (c + a l)`.
fn with_successor<T: CircuitTrait>(b: &mut T, x: &Elem, a: &Elem, c: &Elem, l: &Elem) -> (v: Elem)
    requires
        old(b).inv(),
        elem_ok(x@, old(b)@.next),
        elem_ok(a@, old(b)@.next),
        elem_ok(c@, old(b)@.next),
        elem_ok(l@, old(b)@.next),
    ensures
        final(b).inv(),
        netlist::ext(old(b)@, final(b)@),
        elem_ok(v@, final(b)@.next),
        forall|env: Env| #[trigger]
            netlist::bits(final(b)@, env, v@) == stark_model::with_successor(
                netlist::bits(old(b)@, env, x@),
                netlist::bits(old(b)@, env, a@),
                netlist::bits(old(b)@, env, c@),
                netlist::bits(old(b)@, env, l@),
            ),
{
    let ghost b0 = b@;
    let al = crate::whir_gc::wires::mul(b, a, l);
    let ghost b1 = b@;
    let inner = crate::whir_gc::wires::add(b, c, &al);
    let ghost b2 = b@;
    let outer = crate::whir_gc::wires::mul(b, a, &inner);
    let ghost b3 = b@;
    let v = crate::whir_gc::wires::add(b, x, &outer);
    proof {
        assert forall|env: Env| #[trigger]
            netlist::bits(b@, env, v@) == stark_model::with_successor(
                netlist::bits(b0, env, x@),
                netlist::bits(b0, env, a@),
                netlist::bits(b0, env, c@),
                netlist::bits(b0, env, l@),
            ) by {
            assert(netlist::bits(b1, env, c@) == netlist::bits(b0, env, c@));
            assert(netlist::bits(b2, env, a@) == netlist::bits(b0, env, a@));
            assert(netlist::bits(b3, env, x@) == netlist::bits(b0, env, x@));
        }
    }
    v
}

/// The batched sum through its sumcheck.
#[verifier::rlimit(60)]
fn switch_sum<T: CircuitTrait>(
    b: &mut T,
    cfg: &Config,
    inputs: &Inputs,
    ch: &Challenges,
    eq_batch: &Vec<Elem>,
) -> (sum: Elem)
    requires
        old(b).inv(),
        inputs.wires_ok(old(b)@.next),
        inputs.shaped(*cfg),
        ch.wf(*cfg, old(b)@.next),
        eq_batch@.len() == DIM,
        elems_ok(eq_batch@, old(b)@.next),
        forall|env: Env| #[trigger]
            netlist::words(old(b)@, env, eq_batch@) == stark_model::eq_table(
                ch.draws(old(b)@, env).r_batch,
            ),
    ensures
        final(b).inv(),
        netlist::ext(old(b)@, final(b)@),
        elem_ok(sum@, final(b)@.next),
        forall|env: Env| #[trigger]
            netlist::bits(final(b)@, env, sum@) == stark_model::switch_claim(
                stark_model::switch_sum(
                    inputs.messages(old(b)@, env),
                    ch.draws(old(b)@, env),
                ),
                inputs.messages(old(b)@, env).rs_sumcheck,
                ch.draws(old(b)@, env).r_prime,
            ),
{
    let ghost b0 = b@;
    let plain = stark_wires::dot(b, inputs.tensor.as_slice(), eq_batch.as_slice());
    let ghost b1 = b@;
    let mut sum = plain;
    let ghost pw = sum@;
    proof {
        netlist::lemma_ext_refl(b1);
    }
    match (&inputs.successor, &ch.alpha_rs) {
        (Some(pair), Some(a)) => {
            let bl = stark_wires::dot(b, pair.1.as_slice(), eq_batch.as_slice());
            let ghost b2 = b@;
            assert(elems_ok(pair.0@, b2.next));
            let bc = stark_wires::dot(b, pair.0.as_slice(), eq_batch.as_slice());
            let ghost b3 = b@;
            sum = with_successor(b, &sum, a, &bc, &bl);
            proof {
                assert forall|env: Env| true implies #[trigger] netlist::bits(b@, env, sum@)
                    == stark_model::switch_sum(
                    inputs.messages(b0, env),
                    ch.draws(b0, env),
                ) by {
                    let w = netlist::words(b0, env, eq_batch@);
                    assert(netlist::words(b1, env, eq_batch@) == w);
                    assert(netlist::words(b2, env, eq_batch@) == w);
                    assert(netlist::words(b1, env, pair.1@) == netlist::words(b0, env, pair.1@));
                    assert(netlist::words(b2, env, pair.0@) == netlist::words(b0, env, pair.0@));
                    assert(netlist::bits(b3, env, bl@) == netlist::bits(b2, env, bl@));
                    assert(netlist::bits(b3, env, pw) == netlist::bits(b1, env, pw));
                    assert(netlist::bits(b3, env, a@) == netlist::bits(b0, env, a@));
                }
            }
        },
        _ => {
            proof {
                assert forall|env: Env| true implies #[trigger] netlist::bits(b@, env, sum@)
                    == stark_model::switch_sum(
                    inputs.messages(b0, env),
                    ch.draws(b0, env),
                ) by {}
            }
        },
    }
    let ghost first = b@;
    let ghost sum0 = sum@;
    let ghost start = |env: Env|
        stark_model::switch_sum(inputs.messages(b0, env), ch.draws(b0, env));
    let ghost msgs = |env: Env| pairs(b0, env, inputs.rs_sumcheck@);
    let mut k: usize = 0;
    let n = inputs.rs_sumcheck.len();
    proof {
        netlist::lemma_ext_refl(first);
        assert forall|env: Env| #[trigger]
            netlist::bits(b@, env, sum@) == stark_model::switch_claim(
                start(env),
                msgs(env).take(0),
                netlist::words(b0, env, ch.r_prime@),
            ) by {
            assert(msgs(env).take(0) =~= Seq::<(Elt, Elt)>::empty());
            assert(netlist::bits(b@, env, sum@) == stark_model::switch_sum(
                inputs.messages(b0, env),
                ch.draws(b0, env),
            ));
        }
    }
    while k < n
        invariant
            b.inv(),
            netlist::ext(b0, b@),
            n == inputs.rs_sumcheck@.len() == ch.r_prime@.len(),
            k <= n,
            pairs_ok(inputs.rs_sumcheck@, b0.next),
            elems_ok(ch.r_prime@, b0.next),
            elem_ok(sum@, b@.next),
            msgs == (|env: Env| pairs(b0, env, inputs.rs_sumcheck@)),
            forall|env: Env| #[trigger]
                netlist::bits(b@, env, sum@) == stark_model::switch_claim(
                    start(env),
                    msgs(env).take(k as int),
                    netlist::words(b0, env, ch.r_prime@),
                ),
        decreases n - k,
    {
        let ghost c0 = b@;
        let ghost s0 = sum@;
        let ghost hw = inputs.rs_sumcheck@[k as int].0@;
        let ghost iw = inputs.rs_sumcheck@[k as int].1@;
        assert(elem_ok(inputs.rs_sumcheck@[k as int].0@, b0.next) && elem_ok(iw, b0.next));
        assert(elem_ok(ch.r_prime@[k as int]@, b0.next));
        sum = wire_arith::sumcheck_round(
            b,
            &sum,
            &inputs.rs_sumcheck[k].0,
            &inputs.rs_sumcheck[k].1,
            &ch.r_prime[k],
        );
        proof {
            assert forall|env: Env| #[trigger]
                netlist::bits(b@, env, sum@) == stark_model::switch_claim(
                    start(env),
                    msgs(env).take(k + 1),
                    netlist::words(b0, env, ch.r_prime@),
                ) by {
                let all = msgs(env);
                assert(all.take(k + 1).drop_last() =~= all.take(k as int));
                assert(all.take(k + 1).last() == all[k as int]);
                assert(netlist::bits(c0, env, s0) == stark_model::switch_claim(
                    start(env),
                    all.take(k as int),
                    netlist::words(b0, env, ch.r_prime@),
                ));
                assert(netlist::bits(c0, env, hw) == all[k as int].0);
                assert(netlist::bits(c0, env, iw) == all[k as int].1);
                assert(netlist::bits(c0, env, ch.r_prime@[k as int]@) == netlist::words(
                    b0,
                    env,
                    ch.r_prime@,
                )[k as int]);
            }
        }
        k = k + 1;
    }
    proof {
        assert forall|env: Env| #[trigger]
            netlist::bits(b@, env, sum@) == stark_model::switch_claim(
                start(env),
                msgs(env),
                netlist::words(b0, env, ch.r_prime@),
            ) by {
            assert(msgs(env).take(n as int) =~= msgs(env));
        }
    }
    sum
}

/// The closing weight.
#[verifier::rlimit(60)]
fn switch_weight<T: CircuitTrait>(
    b: &mut T,
    cfg: &Config,
    inputs: &Inputs,
    ch: &Challenges,
    eq_batch: &Vec<Elem>,
) -> (closing: Elem)
    requires
        old(b).inv(),
        sized(*cfg),
        inputs.wires_ok(old(b)@.next),
        inputs.shaped(*cfg),
        ch.wf(*cfg, old(b)@.next),
        eq_batch@.len() == DIM,
        elems_ok(eq_batch@, old(b)@.next),
        forall|env: Env| #[trigger]
            netlist::words(old(b)@, env, eq_batch@) == stark_model::eq_table(
                ch.draws(old(b)@, env).r_batch,
            ),
    ensures
        final(b).inv(),
        netlist::ext(old(b)@, final(b)@),
        elem_ok(closing@, final(b)@.next),
        forall|env: Env| #[trigger]
            netlist::bits(final(b)@, env, closing@) == stark_model::switch_weight(
                *cfg,
                inputs.messages(old(b)@, env),
                ch.draws(old(b)@, env),
            ),
{
    let ghost b0 = b@;
    let packed = cfg.packed_vars();
    let point = joined(&ch.c, &ch.r);
    assert(elems_ok(point@, b0.next));
    let (front, behind) = halves(&point, packed, Ghost(b0.next));
    let high = wires::copy_elems(front);
    assert(netlist::all_below(high@, 128, b0.next));
    let e = stark_wires::equality_element(b, high.as_slice(), ch.r_prime.as_slice());
    let ghost b1 = b@;
    let plain = e.batch_rows(b, eq_batch.as_slice());
    let ghost b2 = b@;
    proof {
        assert forall|env: Env| true implies {
            let d = ch.draws(b0, env);
            &&& #[trigger] netlist::words(b0, env, high@) == stark_model::bit_point(d).take(
                packed as int,
            )
            &&& netlist::bits(b2, env, plain@) == stark_model::dot(
                stark_model::equality_element(
                    netlist::words(b0, env, high@),
                    d.r_prime,
                ),
                stark_model::eq_table(d.r_batch),
            )
        } by {
            let d = ch.draws(b0, env);
            assert(netlist::words(b0, env, point@) == stark_model::bit_point(d));
            assert(netlist::words(b0, env, front@) == stark_model::bit_point(d).take(
                packed as int,
            ));
            assert(netlist::words(b1, env, eq_batch@) == netlist::words(b0, env, eq_batch@));
        }
    }
    match (&inputs.successor, &ch.alpha_rs) {
        (Some(_), Some(a)) => {
            let kept = cfg.kept_rows();
            let k = packed - kept;
            assert(elems_ok(high@, b2.next));
            let (selector, rho) = halves(&high, k, Ghost(b2.next));
            let (r_sel, r_rows) = halves(&ch.r_prime, k, Ghost(b2.next));
            let carry0 = stark_wires::successor_element(b, rho, r_rows);
            let ghost b3 = b@;
            let carry = stark_wires::equality_factors(b, carry0, selector, r_sel);
            let ghost b4 = b@;
            let prho = stark_wires::product(b, rho);
            let ghost b5 = b@;
            let prows = stark_wires::product(b, r_rows);
            let ghost b6 = b@;
            let last0 = Tensor::exterior(b, &prho, &prows);
            let ghost b7 = b@;
            let last = stark_wires::equality_factors(b, last0, selector, r_sel);
            let ghost b8 = b@;
            let bl = last.batch_rows(b, eq_batch.as_slice());
            let ghost b9 = b@;
            proof {
                stark_wires::lemma_tensor_ext(carry, b4, b9);
            }
            let bc = carry.batch_rows(b, eq_batch.as_slice());
            let ghost b10 = b@;
            let closing = with_successor(b, &plain, a, &bc, &bl);
            proof {
                assert forall|env: Env| #[trigger]
                    netlist::bits(b@, env, closing@) == stark_model::switch_weight(
                        *cfg,
                        inputs.messages(b0, env),
                        ch.draws(b0, env),
                    ) by {
                    let d = ch.draws(b0, env);
                    let w = stark_model::eq_table(d.r_batch);
                    let hm = stark_model::bit_point(d).take(packed as int);
                    assert(netlist::words(b0, env, high@) == hm);
                    assert(hm.skip(0) =~= hm);
                    assert(netlist::words(b2, env, high@) == hm);
                    assert(netlist::words(b2, env, ch.r_prime@) == d.r_prime);
                    assert(netlist::words(b2, env, rho@) == hm.skip(k as int));
                    assert(netlist::words(b2, env, selector@) == hm.take(k as int));
                    assert(netlist::words(b2, env, r_rows@) == d.r_prime.skip(k as int));
                    assert(netlist::words(b2, env, r_sel@) == d.r_prime.take(k as int));
                    let c0 = stark_model::successor_element(
                        hm.skip(k as int),
                        d.r_prime.skip(k as int),
                    );
                    assert(netlist::words(b3, env, selector@) == hm.take(k as int));
                    assert(netlist::words(b3, env, r_sel@) == d.r_prime.take(k as int));
                    let cm = stark_model::equality_factors(
                        c0,
                        hm.take(k as int),
                        d.r_prime.take(k as int),
                    );
                    assert(carry.model(b4, env) == cm);
                    assert(netlist::words(b4, env, rho@) == hm.skip(k as int));
                    assert(netlist::words(b5, env, r_rows@) == d.r_prime.skip(k as int));
                    assert(netlist::bits(b6, env, prho@) == netlist::bits(b5, env, prho@));
                    let l0 = stark_model::exterior(
                        stark_model::product(hm.skip(k as int)),
                        stark_model::product(d.r_prime.skip(k as int)),
                    );
                    assert(last0.model(b7, env) == l0);
                    assert(netlist::words(b7, env, selector@) == hm.take(k as int));
                    assert(netlist::words(b7, env, r_sel@) == d.r_prime.take(k as int));
                    let lm = stark_model::equality_factors(
                        l0,
                        hm.take(k as int),
                        d.r_prime.take(k as int),
                    );
                    assert(last.model(b8, env) == lm);
                    assert(netlist::words(b8, env, eq_batch@) == w) by {
                        assert(netlist::words(b0, env, eq_batch@) == w);
                    }
                    assert(netlist::words(b9, env, eq_batch@) == w) by {
                        assert(netlist::words(b0, env, eq_batch@) == w);
                    }
                    assert(netlist::bits(b9, env, bl@) == stark_model::dot(lm, w));
                    assert(carry.model(b9, env) == cm);
                    assert(netlist::bits(b10, env, bc@) == stark_model::dot(cm, w));
                    assert(netlist::bits(b10, env, bl@) == stark_model::dot(lm, w));
                    assert(netlist::bits(b10, env, plain@) == netlist::bits(b2, env, plain@));
                    assert(netlist::bits(b10, env, a@) == netlist::bits(b0, env, a@));
                }
            }
            closing
        },
        _ => {
            proof {
                assert forall|env: Env| #[trigger]
                    netlist::bits(b@, env, plain@) == stark_model::switch_weight(
                        *cfg,
                        inputs.messages(b0, env),
                        ch.draws(b0, env),
                    ) by {
                    let d = ch.draws(b0, env);
                    let hm = stark_model::bit_point(d).take(packed as int);
                    assert(netlist::words(b0, env, high@) == hm);
                    assert(hm.skip(0) =~= hm);
                }
            }
            plain
        },
    }
}

/// The arithmetic checks; each returned wire must be 1.
#[verifier::rlimit(60)]
pub fn check<T: CircuitTrait>(
    b: &mut T,
    cfg: &Config,
    air: &Air,
    inputs: &Inputs,
    ch: &Challenges,
    profile: &mut Profile,
) -> (checks: Vec<usize>)
    requires
        old(b).inv(),
        old(profile).wf(old(b)@),
        sized(*cfg),
        inputs.wires_ok(old(b)@.next),
        inputs.shaped(*cfg),
        ch.wf(*cfg, old(b)@.next),
        air.wf(cfg.width as nat),
    ensures
        final(b).inv(),
        netlist::ext(old(b)@, final(b)@),
        final(profile).wf(final(b)@),
        netlist::below(checks@, final(b)@.next),
        forall|env: Env| #[trigger]
            hold(final(b)@, env, checks@) == (hold(old(b)@, env, ch.guards@)
                && stark_model::accepts(
                *cfg,
                inputs.messages(old(b)@, env),
                *air,
                ch.draws(old(b)@, env),
            )),
{
    let ghost b0 = b@;
    let ghost none: Seq<usize> = Seq::empty();
    let mut checks: Vec<usize> = Vec::new();
    circuit::append_checks(&mut checks, &ch.guards);
    let ghost k0 = checks@;
    assert(k0 =~= ch.guards@);
    let nz = nonzero(b, &inputs.claimed_sum);
    let ghost b1 = b@;
    let zero = wires::not(b, nz);
    let ghost b2 = b@;
    checks.push(zero);
    let ghost k2 = checks@;
    proof {
        let some: Env = |i: int| false;
        lemma_inputs_ext(*inputs, b0, b2, some);
        lemma_challenges_ext(*ch, *cfg, b0, b2);
    }
    let closes = zerocheck_closes(b, cfg, air, inputs, ch, profile);
    let ghost b3 = b@;
    checks.push(closes);
    let ghost k3 = checks@;
    proof {
        let some: Env = |i: int| false;
        lemma_inputs_ext(*inputs, b0, b3, some);
        lemma_challenges_ext(*ch, *cfg, b0, b3);
    }
    let (incoming, successor) = readings(b, cfg, inputs, ch, profile);
    let ghost b4 = b@;
    checks.push(incoming);
    let ghost k4 = checks@;
    checks.push(successor);
    let ghost k5 = checks@;
    let eq_batch = stark_wires::eq_table(b, ch.r_batch.as_slice());
    let ghost b5 = b@;
    proof {
        vstd::arithmetic::power2::lemma2_to64();
        let some: Env = |i: int| false;
        lemma_inputs_ext(*inputs, b0, b5, some);
        lemma_challenges_ext(*ch, *cfg, b0, b5);
        assert forall|env: Env| #[trigger]
            netlist::words(b5, env, eq_batch@) == stark_model::eq_table(
                ch.draws(b5, env).r_batch,
            ) by {
            assert(netlist::words(b5, env, ch.r_batch@) == netlist::words(b4, env, ch.r_batch@));
        }
    }
    let sum = switch_sum(b, cfg, inputs, ch, &eq_batch);
    let ghost b6 = b@;
    proof {
        let some: Env = |i: int| false;
        lemma_inputs_ext(*inputs, b0, b6, some);
        lemma_challenges_ext(*ch, *cfg, b0, b6);
        assert forall|env: Env| #[trigger]
            netlist::words(b6, env, eq_batch@) == stark_model::eq_table(
                ch.draws(b6, env).r_batch,
            ) by {
            assert(netlist::words(b6, env, eq_batch@) == netlist::words(b5, env, eq_batch@));
            assert(ch.draws(b6, env) == ch.draws(b0, env));
            assert(ch.draws(b5, env) == ch.draws(b0, env));
        }
    }
    let closing = switch_weight(b, cfg, inputs, ch, &eq_batch);
    let ghost b7 = b@;
    let expected = crate::whir_gc::wires::mul(b, &closing, &inputs.final_eval);
    let ghost b8 = b@;
    let last = wires::equal(b, sum.as_slice(), expected.as_slice());
    checks.push(last);
    profile.mark(b, Phase::RingSwitchClosing);
    proof {
        assert forall|env: Env| #[trigger]
            hold(b@, env, checks@) == (hold(b0, env, ch.guards@) && stark_model::accepts(
                *cfg,
                inputs.messages(b0, env),
                *air,
                ch.draws(b0, env),
            )) by {
            let p = inputs.messages(b0, env);
            let d = ch.draws(b0, env);
            let c = b@;
            wire_transcript::lemma_hold_push(c, env, k0, zero);
            wire_transcript::lemma_hold_push(c, env, k2, closes);
            wire_transcript::lemma_hold_push(c, env, k3, incoming);
            wire_transcript::lemma_hold_push(c, env, k4, successor);
            wire_transcript::lemma_hold_push(c, env, k5, last);
            assert(netlist::bits(c, env, k0) == netlist::bits(b0, env, k0));
            assert(netlist::value(c, env, zero as int) == netlist::value(b2, env, zero as int));
            assert(netlist::value(b2, env, zero as int) == (p.claimed_sum == field::zero128()));
            lemma_inputs_ext(*inputs, b0, b2, env);
            assert(ch.draws(b2, env) == d);
            assert(netlist::value(c, env, closes as int) == netlist::value(
                b3,
                env,
                closes as int,
            ));
            lemma_inputs_ext(*inputs, b0, b3, env);
            assert(ch.draws(b3, env) == d);
            assert(netlist::value(c, env, incoming as int) == netlist::value(
                b4,
                env,
                incoming as int,
            ));
            assert(netlist::value(c, env, successor as int) == netlist::value(
                b4,
                env,
                successor as int,
            ));
            lemma_inputs_ext(*inputs, b0, b5, env);
            assert(ch.draws(b5, env) == d);
            lemma_inputs_ext(*inputs, b0, b6, env);
            assert(ch.draws(b6, env) == d);
            lemma_inputs_ext(*inputs, b0, b7, env);
            assert(netlist::bits(b6, env, sum@) == stark_model::switch_claim(
                stark_model::switch_sum(p, d),
                p.rs_sumcheck,
                d.r_prime,
            ));
            assert(netlist::bits(b8, env, sum@) == netlist::bits(b6, env, sum@));
            assert(netlist::bits(b7, env, closing@) == stark_model::switch_weight(*cfg, p, d));
            assert(netlist::bits(b7, env, inputs.final_eval@) == p.final_eval);
            assert(p.rs_sumcheck.len() == d.r_prime.len());
            assert(p.rs_sumcheck.take(p.rs_sumcheck.len() as int) =~= p.rs_sumcheck);
            assert(netlist::value(c, env, last as int) == stark_model::switch_closes(
                *cfg,
                p,
                d,
            ));
        }
    }
    checks
}

/// The layer's handover on wires `inputs` from a transcript state.
pub open spec fn outcome(
    cfg: Config,
    air: Air,
    inputs: Inputs,
    c: Netlist,
    env: Env,
    st: Buffers,
) -> Handover {
    let p = inputs.messages(c, env);
    let (end, d) = wired(gadget_machine(), st, cfg, p);
    Handover {
        st: end,
        ok: guarded(cfg, d) && stark_model::accepts(cfg, p, air, d),
        points: seq![d.surviving],
        values: seq![seq![p.final_eval]],
    }
}

/// The whole layer: the transcript, the checks (pushed to `checks` as one), and
/// the surviving claim WHIR opens.
#[verifier::rlimit(60)]
pub fn run<T: CircuitTrait>(
    b: &mut T,
    s: &mut Sponge,
    cfg: &Config,
    air: &Air,
    inputs: &Inputs,
    checks: &mut Vec<usize>,
    profile: &mut Profile,
) -> (out: PrefixOut)
    requires
        old(b).inv(),
        old(s).wf(old(b)@.next),
        netlist::below(old(checks)@, old(b)@.next),
        old(profile).wf(old(b)@),
        sized(*cfg),
        inputs.wires_ok(old(b)@.next),
        inputs.shaped(*cfg),
        air.wf(cfg.width as nat),
    ensures
        final(b).inv(),
        netlist::ext(old(b)@, final(b)@),
        final(s).wf(final(b)@.next),
        netlist::below(final(checks)@, final(b)@.next),
        final(profile).wf(final(b)@),
        wire_closing::sizes(out.points@) == seq![stark_model::packed_vars(*cfg)],
        wire_closing::sizes(out.values@) == seq![1nat],
        grids_ok(out.points@, final(b)@.next),
        grids_ok(out.values@, final(b)@.next),
        forall|env: Env| #[trigger]
            final(s).st(final(b)@, env) == outcome(
                *cfg,
                *air,
                *inputs,
                old(b)@,
                env,
                old(s).st(old(b)@, env),
            ).st,
        forall|env: Env| #[trigger]
            grids(final(b)@, env, out.points@) == outcome(
                *cfg,
                *air,
                *inputs,
                old(b)@,
                env,
                old(s).st(old(b)@, env),
            ).points,
        forall|env: Env| #[trigger]
            grids(final(b)@, env, out.values@) == outcome(
                *cfg,
                *air,
                *inputs,
                old(b)@,
                env,
                old(s).st(old(b)@, env),
            ).values,
        forall|env: Env| #[trigger]
            hold(final(b)@, env, final(checks)@) == (hold(old(b)@, env, old(checks)@)
                && outcome(
                *cfg,
                *air,
                *inputs,
                old(b)@,
                env,
                old(s).st(old(b)@, env),
            ).ok),
{
    let ghost b0 = b@;
    let ghost s0 = *s;
    let ghost k0 = checks@;
    let ch = prefix(b, s, cfg, inputs, profile);
    let ghost b1 = b@;
    let ghost s1 = *s;
    proof {
        let some: Env = |i: int| false;
        lemma_inputs_ext(*inputs, b0, b1, some);
    }
    let mine = check(b, cfg, air, inputs, &ch, profile);
    let ghost b2 = b@;
    let all = wires::and_all(b, mine.as_slice());
    let ghost b3 = b@;
    checks.push(all);
    let ghost sw = ch.surviving@;
    let mut points: Vec<Vec<Elem>> = Vec::new();
    points.push(ch.surviving);
    let mut value: Vec<Elem> = Vec::new();
    value.push(wires::copy_elem(&inputs.final_eval));
    let ghost vw = value@;
    let mut values: Vec<Vec<Elem>> = Vec::new();
    values.push(value);
    let out = PrefixOut { points, values };
    proof {
        assert(wire_closing::sizes(out.points@) =~= seq![stark_model::packed_vars(*cfg)]);
        assert(wire_closing::sizes(out.values@) =~= seq![1nat]);
        assert(elems_ok(sw, b3.next));
        assert(elem_ok(inputs.final_eval@, b0.next));
        assert(vw[0]@ == inputs.final_eval@);
        assert(elems_ok(vw, b3.next));
        assert forall|env: Env| true implies {
            let o = outcome(*cfg, *air, *inputs, b0, env, s0.st(b0, env));
            &&& #[trigger] s.st(b@, env) == o.st
            &&& grids(b@, env, out.points@) == o.points
            &&& grids(b@, env, out.values@) == o.values
            &&& hold(b@, env, checks@) == (hold(b0, env, k0) && o.ok)
        } by {
            let p = inputs.messages(b0, env);
            let w = wired(gadget_machine(), s0.st(b0, env), *cfg, p);
            assert(s1.st(b1, env) == w.0);
            assert(ch.draws(b1, env) == w.1);
            assert(hold(b1, env, ch.guards@) == guarded(*cfg, w.1));
            lemma_inputs_ext(*inputs, b0, b1, env);
            assert(hold(b2, env, mine@) == (hold(b1, env, ch.guards@) && stark_model::accepts(
                *cfg,
                p,
                *air,
                w.1,
            )));
            assert(netlist::value(b3, env, all as int) == hold(b2, env, mine@));
            wire_transcript::lemma_hold_push(b3, env, k0, all);
            assert(netlist::bits(b3, env, k0) == netlist::bits(b0, env, k0));
            assert(netlist::words(b3, env, sw) == netlist::words(b1, env, sw));
            assert(netlist::words(b1, env, sw) == w.1.surviving);
            assert(grids(b3, env, out.points@) =~= seq![w.1.surviving]);
            assert(netlist::bits(b3, env, inputs.final_eval@) == p.final_eval);
            assert(netlist::words(b3, env, vw) =~= seq![p.final_eval]);
            assert(grids(b3, env, out.values@) =~= seq![seq![p.final_eval]]);
        }
        assert forall|env: Env| #[trigger]
            grids(b@, env, out.points@) == outcome(
                *cfg,
                *air,
                *inputs,
                b0,
                env,
                s0.st(b0, env),
            ).points by {
            assert(s.st(b@, env) == outcome(
                *cfg,
                *air,
                *inputs,
                b0,
                env,
                s0.st(b0, env),
            ).st);
        }
        assert forall|env: Env| #[trigger]
            grids(b@, env, out.values@) == outcome(
                *cfg,
                *air,
                *inputs,
                b0,
                env,
                s0.st(b0, env),
            ).values by {
            assert(s.st(b@, env) == outcome(
                *cfg,
                *air,
                *inputs,
                b0,
                env,
                s0.st(b0, env),
            ).st);
        }
        assert forall|env: Env| #[trigger]
            hold(b@, env, checks@) == (hold(b0, env, k0) && outcome(
                *cfg,
                *air,
                *inputs,
                b0,
                env,
                s0.st(b0, env),
            ).ok) by {
            assert(s.st(b@, env) == outcome(
                *cfg,
                *air,
                *inputs,
                b0,
                env,
                s0.st(b0, env),
            ).st);
        }
    }
    out
}

/// The multi-STARK layers in front of the opening.
pub struct Layers<'a> {
    pub cfg: &'a Config,
    pub air: &'a Air,
    pub inputs: &'a Inputs,
}

impl<'a> Prefix for Layers<'a> {
    open spec fn ready(&self, n: nat) -> bool {
        &&& sized(*self.cfg)
        &&& self.inputs.wires_ok(n)
        &&& self.inputs.shaped(*self.cfg)
        &&& self.air.wf(self.cfg.width as nat)
    }

    open spec fn point_sizes(&self) -> Seq<nat> {
        seq![stark_model::packed_vars(*self.cfg)]
    }

    open spec fn value_sizes(&self) -> Seq<nat> {
        seq![1nat]
    }

    open spec fn outcome(&self, c: Netlist, env: Env, st: Buffers) -> Handover {
        self::outcome(*self.cfg, *self.air, *self.inputs, c, env, st)
    }

    proof fn lemma_outcome(&self, a: Netlist, b: Netlist, env: Env, st: Buffers) {
        lemma_inputs_ext(*self.inputs, a, b, env);
    }

    fn run<T: CircuitTrait>(
        self,
        b: &mut T,
        s: &mut Sponge,
        checks: &mut Vec<usize>,
        profile: &mut Profile,
    ) -> (out: PrefixOut) {
        self::run(b, s, self.cfg, self.air, self.inputs, checks, profile)
    }
}

/// On the layers' own witness, where the guards hold, the circuit hands over
/// what the plain verifier draws, and its checks pass exactly where the plain
/// verifier's do.
pub proof fn law_layers_agree(
    cfg: Config,
    air: Air,
    d: Data,
    inputs: Inputs,
    c: Netlist,
    env: Env,
    st: Buffers,
    fuel: nat,
)
    requires
        cfg.pow_bits == 0,
        stark_model::packed_vars(cfg) > 0,
        fuel >= cfg.log_height,
        inputs.messages(c, env) == bare(d.messages()),
        guarded(cfg, wired(gadget_machine(), st, cfg, d.messages()).1),
    ensures
        stark_model::prefix(gadget_machine(), st, cfg, d.messages(), fuel) is Some,
        ({
            let (end, draws) = stark_model::prefix(
                gadget_machine(),
                st,
                cfg,
                d.messages(),
                fuel,
            )->0;
            let o = outcome(cfg, air, inputs, c, env, st);
            &&& o.st == end
            &&& o.ok == stark_model::accepts(cfg, d.messages(), air, draws)
            &&& o.points == seq![draws.surviving]
            &&& o.values == seq![seq![d.messages().final_eval]]
        }),
{
    let m = gadget_machine();
    let p = d.messages();
    lemma_bare(m, st, cfg, p);
    law_wired_prefix(m, st, cfg, p, fuel);
}

/// The messages that [`Inputs::allocate`] lays out for one proof and for another
/// of its shape stand on the same wires.
pub proof fn law_layers_serve_every_proof(
    a: Inputs,
    c: Netlist,
    built_from: Data,
    b: Inputs,
    c2: Netlist,
    d: Data,
    start: nat,
    env: Env,
)
    requires
        forall|e: Env| #[trigger] a.messages(c, e) == laid(e, start as int, shape_of(built_from)),
        forall|e: Env| #[trigger] b.messages(c2, e) == laid(e, start as int, shape_of(d)),
        forall|e: Env|
            carried(e, start, b.witness@) ==> #[trigger] b.messages(c2, e) == bare(d.messages()),
        shape_of(d) == shape_of(built_from),
        carried(env, start, b.witness@),
    ensures
        a.messages(c, env) == bare(d.messages()),
{
    assert(a.messages(c, env) == b.messages(c2, env));
}

/// The whole verifier on wires, built from any proof of a shape and run on the
/// witness of another, where the guards hold: its output is 1 exactly where the
/// plain layers and the plain opening both accept. As for the opening alone,
/// that the gadget's hash is the one that `hash::digest` names is a hypothesis.
pub proof fn law_full_circuit_serves_every_proof<'a, Q: Prefix>(
    layers: Layers<'a>,
    sd: Data,
    draws: StarkDraws,
    checked: Result<(), stark::Error>,
    cfg: reference::Config,
    built_from: reference::Data,
    built_with: reference::Challenges,
    base: Netlist,
    c: Netlist,
    output: usize,
    flushes: usize,
    placeholder: Seq<bool>,
    inputs: wire_inputs::Inputs,
    d: reference::Data,
    ch: reference::Challenges,
    r: Result<reference::Verified, reference::Error>,
    other: Q,
    base2: Netlist,
    c2: Netlist,
    output2: usize,
    flushes2: usize,
    witness: Seq<bool>,
    inputs2: wire_inputs::Inputs,
    env: Env,
    st: Buffers,
    fuel: nat,
)
    requires
        circuit::realizes(
            cfg,
            built_from,
            built_with,
            layers,
            base,
            c,
            output,
            flushes,
            placeholder,
            inputs,
        ),
        circuit::realizes(cfg, d, ch, other, base2, c2, output2, flushes2, witness, inputs2),
        base2.next == base.next,
        wire_layout::shape_of(cfg, d) == wire_layout::shape_of(cfg, built_from),
        wire_layout::alike(
            wire_layout::shape_of(cfg, d),
            built_from.messages(),
            d.messages(),
        ),
        wire_inputs::expandable(cfg, d, ch),
        carried(env, base.next, witness),
        layers.inputs.messages(c, env) == bare(sd.messages()),
        layers.cfg.pow_bits == 0,
        stark_model::packed_vars(*layers.cfg) > 0,
        fuel >= layers.cfg.log_height,
        forall|m: Seq<u8>| #[trigger] wire_sponge::gadget_hash()(m) == reference::blake3()(m),
        ({
            let m = protocol::hash_machine(reference::blake3());
            let start = protocol::absorb_commitment(m, protocol::empty_buffers(), d.messages());
            &&& guarded(*layers.cfg, wired(m, start, *layers.cfg, sd.messages()).1)
            &&& stark_model::prefix(m, start, *layers.cfg, sd.messages(), fuel) == Some((st, draws))
            &&& ch.draws() == protocol::transcript(m, st, cfg, d.messages()).1
        }),
        checked is Ok <==> stark_model::accepts(*layers.cfg, sd.messages(), *layers.air, draws),
        reference::verdict(cfg, d, ch, seq![draws.surviving], r),
        d.messages().openings == seq![seq![sd.messages().final_eval]],
    ensures
        netlist::value(c, env, output as int) == (checked is Ok && r is Ok),
{
    assert(wire_sponge::gadget_hash() =~= reference::blake3());
    let p = d.messages();
    let start = circuit::committed(p);
    circuit::lemma_verdict(cfg, d, ch, seq![draws.surviving], r);
    circuit::lemma_serves(
        cfg,
        built_from,
        built_with,
        layers,
        base,
        c,
        output,
        flushes,
        placeholder,
        inputs,
        d,
        ch,
        other,
        base2,
        c2,
        output2,
        flushes2,
        witness,
        inputs2,
        env,
    );
    law_layers_agree(*layers.cfg, *layers.air, sd, *layers.inputs, c, env, start, fuel);
    let o = outcome(*layers.cfg, *layers.air, *layers.inputs, c, env, start);
    assert(layers.outcome(c, env, start) == o);
    assert(circuit::values_match(p.openings, o.values));
}

/// The whole verifier, garbled before a proof exists and evaluated on the labels of
/// the proof's witness, its layers' and its opening's: it yields the true label of
/// its output exactly where the plain layers and the plain opening both accept, and
/// the false label elsewhere.
pub proof fn law_full_circuit_garbled_before_the_proof<'a, Q: Prefix>(
    layers: Layers<'a>,
    sd: Data,
    draws: StarkDraws,
    checked: Result<(), stark::Error>,
    cfg: reference::Config,
    built_from: reference::Data,
    built_with: reference::Challenges,
    base: Netlist,
    c: Netlist,
    g: Garbled,
    flushes: usize,
    placeholder: Seq<bool>,
    inputs: wire_inputs::Inputs,
    d: reference::Data,
    ch: reference::Challenges,
    r: Result<reference::Verified, reference::Error>,
    other: Q,
    base2: Netlist,
    c2: Netlist,
    output2: usize,
    flushes2: usize,
    witness: Seq<bool>,
    all: Seq<bool>,
    inputs2: wire_inputs::Inputs,
    st: Buffers,
    fuel: nat,
)
    requires
        circuit::realizes(
            cfg,
            built_from,
            built_with,
            layers,
            base,
            c,
            g.output,
            flushes,
            placeholder,
            inputs,
        ),
        circuit::realizes(cfg, d, ch, other, base2, c2, output2, flushes2, witness, inputs2),
        base2.next == base.next,
        wire_layout::shape_of(cfg, d) == wire_layout::shape_of(cfg, built_from),
        wire_layout::alike(
            wire_layout::shape_of(cfg, d),
            built_from.messages(),
            d.messages(),
        ),
        wire_inputs::expandable(cfg, d, ch),
        carried(gates::witness_env(all), base.next, witness),
        layers.inputs.messages(c, gates::witness_env(all)) == bare(sd.messages()),
        layers.cfg.pow_bits == 0,
        stark_model::packed_vars(*layers.cfg) > 0,
        fuel >= layers.cfg.log_height,
        forall|m: Seq<u8>| #[trigger] wire_sponge::gadget_hash()(m) == reference::blake3()(m),
        ({
            let m = protocol::hash_machine(reference::blake3());
            let start = protocol::absorb_commitment(m, protocol::empty_buffers(), d.messages());
            &&& guarded(*layers.cfg, wired(m, start, *layers.cfg, sd.messages()).1)
            &&& stark_model::prefix(m, start, *layers.cfg, sd.messages(), fuel) == Some((st, draws))
            &&& ch.draws() == protocol::transcript(m, st, cfg, d.messages()).1
        }),
        checked is Ok <==> stark_model::accepts(*layers.cfg, sd.messages(), *layers.air, draws),
        reference::verdict(cfg, d, ch, seq![draws.surviving], r),
        d.messages().openings == seq![seq![sd.messages().final_eval]],
        netlist::wf(c),
        garble::garbled_from(c, g),
        g.label0@.len() == 2 + all.len(),
    ensures
        garble::held_labels(
            c.gates,
            garble::label_bytes(g.ciphertexts@),
            gates::witness_env(all),
            garble::witness_labels(garble::label_bytes(g.label0@), g.delta@, all),
        )(g.output as int) == garble::label_of(
            g.output0@,
            g.delta@,
            checked is Ok && r is Ok,
        ),
{
    let env = gates::witness_env(all);
    law_full_circuit_serves_every_proof(
        layers,
        sd,
        draws,
        checked,
        cfg,
        built_from,
        built_with,
        base,
        c,
        g.output,
        flushes,
        placeholder,
        inputs,
        d,
        ch,
        r,
        other,
        base2,
        c2,
        output2,
        flushes2,
        witness,
        inputs2,
        env,
        st,
        fuel,
    );
    garble::law_label_follows_value(c, g, all);
}

} // verus!

//! The verifier's arithmetic on wires: the batched claim, the rounds' folds,
//! and the closing weights.
use super::bytes;
use super::field;
use super::field::Elt;
use super::gates::CircuitTrait;
use super::netlist;
use super::netlist::{Env, Netlist};
use super::profile;
use super::profile::{Phase, Profile};
use super::protocol;
use super::protocol::{ConstraintM, Draws, ProofM, SumcheckM};
use super::reference;
use super::reference::{Config, Data};
use super::wire_arith;
use super::wire_inputs;
use super::wire_inputs::{grids, grids_ok, Inputs, SumcheckInputs};
use super::wire_merkle;
use super::wire_sponge;
use super::wire_sponge::{gadget_hash, wire_bytes};
use super::wire_transcript;
use super::wire_transcript::{hold, positions, TranscriptWires};
use super::wires;
use super::wires::{elem_ok, elems_ok, Elem};
use vstd::arithmetic::power2::pow2;
use vstd::prelude::*;

verus! {

broadcast use {netlist::group_netlist, profile::lemma_profile_ext};

/// Points of one arity.
pub open spec fn points_of(points: Seq<Vec<Elem>>, arity: nat) -> bool {
    forall|i: int| 0 <= i < points.len() ==> (#[trigger] points[i])@.len() == arity
}

/// The points of out-of-domain samples.
fn expand_all<T: CircuitTrait>(b: &mut T, ys: &[Elem], m: usize) -> (out: Vec<Vec<Elem>>)
    requires
        old(b).inv(),
        elems_ok(ys@, old(b)@.next),
    ensures
        final(b).inv(),
        netlist::ext(old(b)@, final(b)@),
        out@.len() == ys@.len(),
        points_of(out@, m as nat),
        grids_ok(out@, final(b)@.next),
        forall|env: Env| #[trigger]
            grids(final(b)@, env, out@) == protocol::ood_expanded(
                netlist::words(old(b)@, env, ys@),
                m as nat,
            ),
{
    let ghost first = b@;
    let mut out: Vec<Vec<Elem>> = Vec::new();
    proof {
        netlist::lemma_ext_refl(first);
    }
    while out.len() < ys.len()
        invariant
            b.inv(),
            netlist::ext(first, b@),
            elems_ok(ys@, first.next),
            out@.len() <= ys@.len(),
            points_of(out@, m as nat),
            grids_ok(out@, b@.next),
            forall|env: Env, i: int|
                0 <= i < out@.len() ==> #[trigger] netlist::words(b@, env, out@[i]@)
                    == protocol::expand_univariate(
                    netlist::bits(first, env, ys@[i]@),
                    m as nat,
                ),
        decreases ys@.len() - out@.len(),
    {
        let k = out.len();
        let ghost c0 = b@;
        let ghost out0 = out@;
        assert(elem_ok(ys@[k as int]@, first.next));
        let p = wire_arith::expand_univariate(b, &ys[k], m);
        out.push(p);
        proof {
            wire_inputs::lemma_grids_ok(out0, c0.next, b@.next);
            assert forall|i: int| 0 <= i < out@.len() implies elems_ok(
                #[trigger] out@[i]@,
                b@.next,
            ) by {
                if i < k {
                    assert(out@[i] == out0[i]);
                    assert(elems_ok(out0[i]@, b@.next));
                }
            }
            assert forall|i: int| 0 <= i < out@.len() implies (#[trigger] out@[i])@.len() == m by {
                if i < k {
                    assert(out@[i] == out0[i]);
                }
            }
            assert forall|env: Env, i: int|
                0 <= i < out@.len() implies #[trigger] netlist::words(b@, env, out@[i]@)
                == protocol::expand_univariate(
                netlist::bits(first, env, ys@[i]@),
                m as nat,
            ) by {
                if i < k {
                    assert(out@[i] == out0[i]);
                    assert(elems_ok(out0[i]@, c0.next));
                    assert(netlist::words(c0, env, out0[i]@) == netlist::words(
                        b@,
                        env,
                        out0[i]@,
                    ));
                } else {
                    assert(netlist::bits(c0, env, ys@[i]@) == netlist::bits(first, env, ys@[i]@));
                }
            }
        }
    }
    proof {
        assert forall|env: Env| #[trigger]
            grids(b@, env, out@) == protocol::ood_expanded(
                netlist::words(first, env, ys@),
                m as nat,
            ) by {
            let want = protocol::ood_expanded(netlist::words(first, env, ys@), m as nat);
            assert forall|i: int| 0 <= i < out@.len() implies grids(b@, env, out@)[i]
                == want[i] by {
                assert(netlist::words(b@, env, out@[i]@) == protocol::expand_univariate(
                    netlist::bits(first, env, ys@[i]@),
                    m as nat,
                ));
            }
            assert(grids(b@, env, out@) =~= want);
        }
    }
    out
}

/// The multilinear points of queried positions.
fn query_points<T: CircuitTrait>(
    b: &mut T,
    n: usize,
    queries: &Vec<Vec<usize>>,
    Ghost(width): Ghost<nat>,
) -> (out: Vec<Vec<Elem>>)
    requires
        old(b).inv(),
        width <= 128,
        netlist::all_below(queries@, width, old(b)@.next),
    ensures
        final(b).inv(),
        netlist::ext(old(b)@, final(b)@),
        out@.len() == queries@.len(),
        points_of(out@, n as nat),
        grids_ok(out@, final(b)@.next),
        forall|env: Env| #[trigger]
            grids(final(b)@, env, out@) == protocol::query_points(
                n as nat,
                positions(old(b)@, env, queries@),
            ),
{
    let ghost first = b@;
    let mut out: Vec<Vec<Elem>> = Vec::new();
    proof {
        netlist::lemma_ext_refl(first);
    }
    while out.len() < queries.len()
        invariant
            b.inv(),
            netlist::ext(first, b@),
            width <= 128,
            netlist::all_below(queries@, width, first.next),
            out@.len() <= queries@.len(),
            points_of(out@, n as nat),
            grids_ok(out@, b@.next),
            forall|env: Env, i: int|
                0 <= i < out@.len() ==> #[trigger] netlist::words(b@, env, out@[i]@)
                    == protocol::query_point(
                    n as nat,
                    bytes::nat_of(netlist::bits(first, env, queries@[i]@)),
                ),
        decreases queries@.len() - out@.len(),
    {
        let k = out.len();
        let ghost c0 = b@;
        let ghost out0 = out@;
        assert(netlist::below(queries@[k as int]@, first.next));
        let p = wire_arith::query_point(b, n, queries[k].as_slice());
        out.push(p);
        proof {
            wire_inputs::lemma_grids_ok(out0, c0.next, b@.next);
            assert forall|i: int| 0 <= i < out@.len() implies elems_ok(
                #[trigger] out@[i]@,
                b@.next,
            ) by {
                if i < k {
                    assert(out@[i] == out0[i]);
                    assert(elems_ok(out0[i]@, b@.next));
                }
            }
            assert forall|i: int| 0 <= i < out@.len() implies (#[trigger] out@[i])@.len() == n by {
                if i < k {
                    assert(out@[i] == out0[i]);
                }
            }
            assert forall|env: Env, i: int|
                0 <= i < out@.len() implies #[trigger] netlist::words(b@, env, out@[i]@)
                == protocol::query_point(
                n as nat,
                bytes::nat_of(netlist::bits(first, env, queries@[i]@)),
            ) by {
                if i < k {
                    assert(out@[i] == out0[i]);
                    assert(elems_ok(out0[i]@, c0.next));
                    assert(netlist::words(c0, env, out0[i]@) == netlist::words(
                        b@,
                        env,
                        out0[i]@,
                    ));
                } else {
                    assert(netlist::bits(c0, env, queries@[i]@) == netlist::bits(
                        first,
                        env,
                        queries@[i]@,
                    ));
                }
            }
        }
    }
    proof {
        assert forall|env: Env| #[trigger]
            grids(b@, env, out@) == protocol::query_points(
                n as nat,
                positions(first, env, queries@),
            ) by {
            let want = protocol::query_points(n as nat, positions(first, env, queries@));
            assert forall|i: int| 0 <= i < out@.len() implies grids(b@, env, out@)[i]
                == want[i] by {
                assert(netlist::words(b@, env, out@[i]@) == protocol::query_point(
                    n as nat,
                    bytes::nat_of(netlist::bits(first, env, queries@[i]@)),
                ));
            }
            assert(grids(b@, env, out@) =~= want);
        }
    }
    out
}

/// The claim after a sumcheck.
pub(crate) fn sumcheck_claim<T: CircuitTrait>(
    b: &mut T,
    claim: Elem,
    rounds: &[SumcheckInputs],
    folding: &[Elem],
    Ghost(grinds): Ghost<bool>,
    Ghost(fallback): Ghost<Seq<SumcheckM>>,
) -> (v: Elem)
    requires
        old(b).inv(),
        elem_ok(claim@, old(b)@.next),
        wire_inputs::sumcheck_ok(rounds@, grinds, old(b)@.next),
        folding@.len() == rounds@.len(),
        elems_ok(folding@, old(b)@.next),
    ensures
        final(b).inv(),
        netlist::ext(old(b)@, final(b)@),
        elem_ok(v@, final(b)@.next),
        forall|env: Env| #[trigger]
            netlist::bits(final(b)@, env, v@) == protocol::sumcheck_claim(
                netlist::bits(old(b)@, env, claim@),
                wire_inputs::sumcheck_messages(rounds@, old(b)@, env, fallback),
                netlist::words(old(b)@, env, folding@),
            ),
{
    let ghost first = b@;
    let ghost claim0 = claim@;
    let mut v = claim;
    let mut k: usize = 0;
    proof {
        netlist::lemma_ext_refl(first);
        assert forall|env: Env| #[trigger]
            netlist::bits(b@, env, v@) == protocol::sumcheck_claim(
                netlist::bits(first, env, claim0),
                wire_inputs::sumcheck_messages(rounds@, first, env, fallback).take(0),
                netlist::words(first, env, folding@),
            ) by {
            assert(wire_inputs::sumcheck_messages(rounds@, first, env, fallback).take(0) =~= Seq::<
                SumcheckM,
            >::empty());
        }
    }
    while k < rounds.len()
        invariant
            b.inv(),
            netlist::ext(first, b@),
            k <= rounds@.len() == folding@.len(),
            elem_ok(v@, b@.next),
            wire_inputs::sumcheck_ok(rounds@, grinds, first.next),
            elems_ok(folding@, first.next),
            forall|env: Env| #[trigger]
                netlist::bits(b@, env, v@) == protocol::sumcheck_claim(
                    netlist::bits(first, env, claim0),
                    wire_inputs::sumcheck_messages(rounds@, first, env, fallback).take(k as int),
                    netlist::words(first, env, folding@),
                ),
        decreases rounds@.len() - k,
    {
        let ghost c0 = b@;
        let ghost v0 = v@;
        proof {
            assert(rounds@[k as int].wf(grinds, first.next));
            assert(elem_ok(folding@[k as int]@, first.next));
        }
        v = wire_arith::sumcheck_round(b, &v, &rounds[k].c0, &rounds[k].c_inf, &folding[k]);
        proof {
            assert forall|env: Env| #[trigger]
                netlist::bits(b@, env, v@) == protocol::sumcheck_claim(
                    netlist::bits(first, env, claim0),
                    wire_inputs::sumcheck_messages(rounds@, first, env, fallback).take(k + 1),
                    netlist::words(first, env, folding@),
                ) by {
                let all = wire_inputs::sumcheck_messages(rounds@, first, env, fallback);
                assert(all.take(k + 1).drop_last() =~= all.take(k as int));
                let r = all[k as int];
                assert(all.take(k + 1).last() == r);
                assert(netlist::bits(c0, env, v0) == protocol::sumcheck_claim(
                    netlist::bits(first, env, claim0),
                    all.take(k as int),
                    netlist::words(first, env, folding@),
                ));
                assert(netlist::bits(c0, env, rounds@[k as int].c0@) == r.c0);
                assert(netlist::bits(c0, env, rounds@[k as int].c_inf@) == r.c_inf);
                assert(netlist::bits(c0, env, folding@[k as int]@) == netlist::words(
                    first,
                    env,
                    folding@,
                )[k as int]);
            }
        }
        k = k + 1;
    }
    proof {
        assert forall|env: Env| #[trigger]
            netlist::bits(b@, env, v@) == protocol::sumcheck_claim(
                netlist::bits(first, env, claim0),
                wire_inputs::sumcheck_messages(rounds@, first, env, fallback),
                netlist::words(first, env, folding@),
            ) by {
            let all = wire_inputs::sumcheck_messages(rounds@, first, env, fallback);
            assert(all.take(k as int) =~= all);
        }
    }
    v
}

// ---------------------------------------------------------------------------
// Constraints and their weights.
// ---------------------------------------------------------------------------

/// A batched constraint on wires; the eq points keep their statement order,
/// openings then out-of-domain samples.
pub struct ConstraintWires {
    pub challenge: Elem,
    pub arity: usize,
    pub initial_power: usize,
    pub eq_points: Vec<Vec<Elem>>,
    pub direct_points: Vec<Vec<Elem>>,
}

impl ConstraintWires {
    pub open spec fn wf(self, n: nat) -> bool {
        &&& elem_ok(self.challenge@, n)
        &&& self.initial_power <= 1
        &&& points_of(self.eq_points@, self.arity as nat)
        &&& grids_ok(self.eq_points@, n)
        &&& points_of(self.direct_points@, self.arity as nat)
        &&& grids_ok(self.direct_points@, n)
    }

    pub open spec fn model(self, c: Netlist, env: Env) -> ConstraintM {
        ConstraintM {
            challenge: netlist::bits(c, env, self.challenge@),
            arity: self.arity as nat,
            initial_power: self.initial_power as nat,
            eq_points: grids(c, env, self.eq_points@),
            direct_points: grids(c, env, self.direct_points@),
        }
    }
}

pub proof fn lemma_constraint_ext(x: ConstraintWires, a: Netlist, b: Netlist)
    requires
        netlist::ext(a, b),
        x.wf(a.next),
    ensures
        x.wf(b.next),
        forall|env: Env| #[trigger] x.model(b, env) == x.model(a, env),
{
    wire_inputs::lemma_grids_ok(x.eq_points@, a.next, b.next);
    wire_inputs::lemma_grids_ok(x.direct_points@, a.next, b.next);
    assert forall|env: Env| #[trigger] x.model(b, env) == x.model(a, env) by {
        wire_inputs::lemma_grids_ext(a, b, env, x.eq_points@);
        wire_inputs::lemma_grids_ext(a, b, env, x.direct_points@);
    }
}

/// The eq weights of some points, or their direct weights.
fn point_weights<T: CircuitTrait>(
    b: &mut T,
    points: &Vec<Vec<Elem>>,
    local: &[Elem],
    direct: bool,
) -> (out: Vec<Elem>)
    requires
        old(b).inv(),
        points_of(points@, local@.len()),
        grids_ok(points@, old(b)@.next),
        elems_ok(local@, old(b)@.next),
    ensures
        final(b).inv(),
        netlist::ext(old(b)@, final(b)@),
        out@.len() == points@.len(),
        elems_ok(out@, final(b)@.next),
        forall|env: Env| #[trigger]
            netlist::words(final(b)@, env, out@) == weights_at(
                grids(old(b)@, env, points@),
                netlist::words(old(b)@, env, local@),
                direct,
            ),
{
    let ghost first = b@;
    let mut out: Vec<Elem> = Vec::new();
    proof {
        netlist::lemma_ext_refl(first);
    }
    while out.len() < points.len()
        invariant
            b.inv(),
            netlist::ext(first, b@),
            points_of(points@, local@.len()),
            grids_ok(points@, first.next),
            elems_ok(local@, first.next),
            out@.len() <= points@.len(),
            elems_ok(out@, b@.next),
            forall|env: Env, i: int|
                0 <= i < out@.len() ==> #[trigger] netlist::bits(b@, env, out@[i]@) == weight_at(
                    netlist::words(first, env, points@[i]@),
                    netlist::words(first, env, local@),
                    direct,
                ),
        decreases points@.len() - out@.len(),
    {
        let k = out.len();
        let ghost c0 = b@;
        let ghost out0 = out@;
        assert(elems_ok(points@[k as int]@, first.next));
        assert(points@[k as int]@.len() == local@.len());
        let w = if direct {
            wire_arith::select_point_weight(b, points[k].as_slice(), local)
        } else {
            wire_arith::eq_eval(b, points[k].as_slice(), local)
        };
        out.push(w);
        proof {
            assert forall|env: Env, i: int|
                0 <= i < out@.len() implies #[trigger] netlist::bits(b@, env, out@[i]@)
                == weight_at(
                netlist::words(first, env, points@[i]@),
                netlist::words(first, env, local@),
                direct,
            ) by {
                if i < k {
                    assert(out@[i] == out0[i]);
                    assert(elem_ok(out0[i]@, c0.next));
                    assert(netlist::bits(c0, env, out0[i]@) == netlist::bits(b@, env, out0[i]@));
                } else {
                    assert(netlist::words(c0, env, points@[i]@) == netlist::words(
                        first,
                        env,
                        points@[i]@,
                    ));
                    assert(netlist::words(c0, env, local@) == netlist::words(
                        first,
                        env,
                        local@,
                    ));
                }
            }
        }
    }
    proof {
        assert forall|env: Env| #[trigger]
            netlist::words(b@, env, out@) == weights_at(
                grids(first, env, points@),
                netlist::words(first, env, local@),
                direct,
            ) by {
            let want = weights_at(
                grids(first, env, points@),
                netlist::words(first, env, local@),
                direct,
            );
            assert forall|i: int| 0 <= i < out@.len() implies netlist::words(b@, env, out@)[i]
                == want[i] by {
                assert(netlist::bits(b@, env, out@[i]@) == weight_at(
                    netlist::words(first, env, points@[i]@),
                    netlist::words(first, env, local@),
                    direct,
                ));
            }
            assert(netlist::words(b@, env, out@) =~= want);
        }
    }
    out
}

/// The weight of one point.
pub open spec fn weight_at(p: Seq<Elt>, local: Seq<Elt>, direct: bool) -> Elt {
    if direct {
        protocol::select_point_weight(p, local)
    } else {
        protocol::eq_eval(p, local)
    }
}

pub open spec fn weights_at(points: Seq<Seq<Elt>>, local: Seq<Elt>, direct: bool) -> Seq<Elt> {
    Seq::new(points.len(), |i: int| weight_at(points[i], local, direct))
}

/// A constraint's weight: arity `n` reads the first `n` coordinates of the
/// reversed randomness.
#[verifier::rlimit(30)]
fn constraint_weight<T: CircuitTrait>(
    b: &mut T,
    x: &ConstraintWires,
    rev: &[Elem],
    profile: &mut Profile,
) -> (acc: Elem)
    requires
        old(b).inv(),
        old(profile).wf(old(b)@),
        x.wf(old(b)@.next),
        x.arity <= rev@.len(),
        elems_ok(rev@, old(b)@.next),
    ensures
        final(b).inv(),
        netlist::ext(old(b)@, final(b)@),
        final(profile).wf(final(b)@),
        elem_ok(acc@, final(b)@.next),
        forall|env: Env| #[trigger]
            netlist::bits(final(b)@, env, acc@) == protocol::constraint_weight(
                x.model(old(b)@, env),
                netlist::words(old(b)@, env, rev@),
            ),
{
    let ghost b0 = b@;
    proof {
        netlist::lemma_ext_refl(b0);
    }
    let (local, rest) = rev.split_at(x.arity);
    let ghost lw = local@;
    assert(lw == rev@.take(x.arity as int));
    assert(elems_ok(lw, b0.next)) by {
        assert forall|i: int| 0 <= i < lw.len() implies (#[trigger] lw[i])@.len() == 128
            && netlist::below(lw[i]@, b0.next) by {
            assert(lw[i] == rev@[i]);
            assert(rev@[i]@.len() == 128 && netlist::below(rev@[i]@, b0.next));
        }
    }
    let eq_w = point_weights(b, &x.eq_points, local, false);
    let ghost b1 = b@;
    profile.mark(b, Phase::ClosingEqWeights);
    let zero = wires::zero_elem(b);
    let acc = wire_arith::combine_into(
        b,
        &zero,
        &x.challenge,
        x.initial_power,
        eq_w.as_slice(),
    );
    let ghost b2 = b@;
    let mut done = wires::copy_elems(eq_w.as_slice());
    if x.initial_power == 1 {
        done.push(zero);
    }
    let shift = done.len();
    profile.mark(b, Phase::ClaimCombination);
    proof {
        wire_inputs::lemma_grids_ok(x.direct_points@, b0.next, b2.next);
    }
    let sel_w = point_weights(b, &x.direct_points, local, true);
    let ghost b3 = b@;
    profile.mark(b, Phase::ClosingQueryWeights);
    let total = wire_arith::combine_into(b, &acc, &x.challenge, shift, sel_w.as_slice());
    proof {
        assert forall|env: Env| #[trigger]
            netlist::bits(b@, env, total@) == protocol::constraint_weight(
                x.model(b0, env),
                netlist::words(b0, env, rev@),
            ) by {
            let c = x.model(b0, env);
            let revm = netlist::words(b0, env, rev@);
            let localm = netlist::words(b0, env, lw);
            assert(localm =~= revm.take(c.arity as int));
            let eqm = weights_at(c.eq_points, localm, false);
            let dm = weights_at(c.direct_points, localm, true);
            assert(netlist::words(b1, env, eq_w@) == eqm);
            assert(netlist::bits(b1, env, x.challenge@) == c.challenge);
            assert(netlist::bits(b1, env, zero@) == field::zero128());
            let first_part = protocol::combine(
                field::zero128(),
                c.challenge,
                c.initial_power,
                eqm,
            );
            assert(netlist::bits(b2, env, acc@) == first_part);
            wire_inputs::lemma_grids_ext(b0, b2, env, x.direct_points@);
            assert(netlist::words(b2, env, lw) == localm);
            assert(netlist::words(b3, env, sel_w@) == dm);
            assert(netlist::bits(b3, env, acc@) == first_part);
            assert(netlist::bits(b3, env, x.challenge@) == c.challenge);
            assert(shift == c.initial_power + eqm.len());
            protocol::lemma_combine_concat(
                field::zero128(),
                c.challenge,
                c.initial_power,
                eqm,
                dm,
            );
            let eq_spec = Seq::new(
                c.eq_points.len(),
                |i: int| protocol::eq_eval(c.eq_points[i], localm),
            );
            let d_spec = Seq::new(
                c.direct_points.len(),
                |i: int| protocol::select_point_weight(c.direct_points[i], localm),
            );
            assert(eqm =~= eq_spec);
            assert(dm =~= d_spec);
        }
    }
    total
}

// ---------------------------------------------------------------------------
// The commitment's constraint and claim.
// ---------------------------------------------------------------------------

/// The claims' points have the polynomial's arity: the given ones, which name
/// the whole polynomial, or those of every selector.
pub open spec fn claims_measured(cfg: Config, d: Data, points: Seq<nat>) -> bool {
    forall|i: int|
        0 <= i < cfg.claims@.len() && i < d.openings@.len() ==> {
            let shape = #[trigger] cfg.claims@[i];
            if cfg.given_points {
                &&& i < points.len()
                &&& points[i] == cfg.num_variables
                &&& shape.selectors@.len() == 1
                &&& shape.selectors@[0]@.len() == 0
            } else {
                forall|j: int|
                    0 <= j < shape.selectors@.len() ==> (#[trigger] shape.selectors@[j])@.len()
                        + shape.row_vars == cfg.num_variables
            }
        }
}

/// The sizes of some points.
pub open spec fn sizes(points: Seq<Vec<Elem>>) -> Seq<nat> {
    Seq::new(points.len(), |i: int| points[i]@.len())
}

/// A selector's coordinates, constants, in front of a row point.
fn selected_point<T: CircuitTrait>(b: &mut T, selector: &Vec<field::F>, row: &Vec<Elem>) -> (p: Vec<
    Elem,
>)
    requires
        old(b).inv(),
        elems_ok(row@, old(b)@.next),
    ensures
        final(b).inv(),
        final(b)@ == old(b)@,
        p@.len() == selector@.len() + row@.len(),
        elems_ok(p@, final(b)@.next),
        forall|env: Env| #[trigger]
            netlist::words(final(b)@, env, p@) == reference::elts(selector@) + netlist::words(
                old(b)@,
                env,
                row@,
            ),
{
    let ghost first = b@;
    let mut p: Vec<Elem> = Vec::new();
    while p.len() < selector.len()
        invariant
            b.inv(),
            b@ == first,
            p@.len() <= selector@.len(),
            elems_ok(p@, first.next),
            forall|env: Env, i: int|
                0 <= i < p@.len() ==> #[trigger] netlist::bits(first, env, p@[i]@)
                    == selector@[i]@,
        decreases selector@.len() - p@.len(),
    {
        let k = p.len();
        let ghost p0 = p@;
        let w = wires::constant(b, selector[k]);
        p.push(w);
        proof {
            assert forall|env: Env, i: int| 0 <= i < p@.len() implies #[trigger] netlist::bits(
                first,
                env,
                p@[i]@,
            ) == selector@[i]@ by {
                if i < k {
                    assert(p@[i] == p0[i]);
                    assert(netlist::bits(first, env, p0[i]@) == selector@[i]@);
                }
            }
        }
    }
    let ghost front = p@;
    wires::extend(&mut p, row.as_slice());
    proof {
        assert forall|env: Env| #[trigger]
            netlist::words(first, env, p@) == reference::elts(selector@) + netlist::words(
                first,
                env,
                row@,
            ) by {
            assert forall|i: int| 0 <= i < front.len() implies netlist::words(first, env, front)[i]
                == reference::elts(selector@)[i] by {
                assert(netlist::bits(first, env, front[i]@) == selector@[i]@);
            }
            assert(netlist::words(first, env, front) =~= reference::elts(selector@));
        }
    }
    p
}

/// The points of claim `i`.
#[verifier::rlimit(30)]
fn claim_points<T: CircuitTrait>(
    b: &mut T,
    cfg: &Config,
    d: &Data,
    t: &TranscriptWires,
    given: &Vec<Vec<Elem>>,
    i: usize,
) -> (out: Vec<Vec<Elem>>)
    requires
        old(b).inv(),
        t.wf(*cfg, *d, old(b)@.next),
        grids_ok(given@, old(b)@.next),
        claims_measured(*cfg, *d, sizes(given@)),
        i < cfg.claims@.len(),
        i < d.openings@.len(),
    ensures
        final(b).inv(),
        netlist::ext(old(b)@, final(b)@),
        points_of(out@, cfg.num_variables as nat),
        grids_ok(out@, final(b)@.next),
        forall|env: Env| #[trigger]
            grids(final(b)@, env, out@) == protocol::claim_points(
                *cfg,
                t.draws(old(b)@, env),
                grids(old(b)@, env, given@),
                i as int,
            ),
{
    let ghost first = b@;
    let shape = &cfg.claims[i];
    let mut out: Vec<Vec<Elem>> = Vec::new();
    if cfg.given_points {
        proof {
            netlist::lemma_ext_refl(first);
            assert(sizes(given@)[i as int] == given@[i as int]@.len());
            assert(elems_ok(given@[i as int]@, first.next));
        }
        let p = wires::copy_elems(given[i].as_slice());
        out.push(p);
        proof {
            assert forall|env: Env| #[trigger]
                grids(b@, env, out@) == protocol::claim_points(
                    *cfg,
                    t.draws(first, env),
                    grids(first, env, given@),
                    i as int,
                ) by {
                assert(netlist::words(b@, env, p@) == netlist::words(
                    b@,
                    env,
                    given@[i as int]@,
                ));
                assert(grids(b@, env, out@) =~= seq![grids(first, env, given@)[i as int]]);
            }
        }
        return out;
    }
    assert(elem_ok(t.opening_points@[i as int]@, first.next));
    let row = wire_arith::expand_univariate(b, &t.opening_points[i], shape.row_vars);
    let ghost c1 = b@;
    while out.len() < shape.selectors.len()
        invariant
            b.inv(),
            b@ == c1,
            *shape == cfg.claims@[i as int],
            row@.len() == shape.row_vars,
            elems_ok(row@, c1.next),
            forall|j: int|
                0 <= j < shape.selectors@.len() ==> (#[trigger] shape.selectors@[j])@.len()
                    + shape.row_vars == cfg.num_variables,
            out@.len() <= shape.selectors@.len(),
            points_of(out@, cfg.num_variables as nat),
            grids_ok(out@, c1.next),
            forall|env: Env, j: int|
                0 <= j < out@.len() ==> #[trigger] netlist::words(c1, env, out@[j]@)
                    == reference::elts(shape.selectors@[j]@) + netlist::words(c1, env, row@),
        decreases shape.selectors@.len() - out@.len(),
    {
        let k = out.len();
        let ghost out0 = out@;
        let p = selected_point(b, &shape.selectors[k], &row);
        out.push(p);
        proof {
            assert(shape.selectors@[k as int]@.len() + shape.row_vars == cfg.num_variables);
            assert forall|j: int| 0 <= j < out@.len() implies (#[trigger] out@[j])@.len()
                == cfg.num_variables && elems_ok(out@[j]@, c1.next) by {
                if j < k {
                    assert(out@[j] == out0[j]);
                    assert(elems_ok(out0[j]@, c1.next));
                }
            }
            assert forall|env: Env, j: int|
                0 <= j < out@.len() implies #[trigger] netlist::words(c1, env, out@[j]@)
                == reference::elts(shape.selectors@[j]@) + netlist::words(c1, env, row@) by {
                if j < k {
                    assert(out@[j] == out0[j]);
                    assert(netlist::words(c1, env, out0[j]@) == reference::elts(
                        shape.selectors@[j]@,
                    ) + netlist::words(c1, env, row@));
                }
            }
        }
    }
    proof {
        assert forall|env: Env| #[trigger]
            grids(b@, env, out@) == protocol::claim_points(
                *cfg,
                t.draws(first, env),
                grids(first, env, given@),
                i as int,
            ) by {
            let want = protocol::claim_points(
                *cfg,
                t.draws(first, env),
                grids(first, env, given@),
                i as int,
            );
            assert forall|j: int| 0 <= j < out@.len() implies grids(b@, env, out@)[j]
                == want[j] by {
                assert(netlist::words(c1, env, out@[j]@) == reference::elts(
                    shape.selectors@[j]@,
                ) + netlist::words(c1, env, row@));
                assert(reference::elts(shape.selectors@[j]@) =~= Seq::new(
                    shape.selectors@[j]@.len(),
                    |k: int| shape.selectors@[j]@[k]@,
                ));
            }
            assert(grids(b@, env, out@) =~= want);
        }
    }
    out
}

/// More points behind some points.
fn append_points(out: &mut Vec<Vec<Elem>>, more: Vec<Vec<Elem>>, Ghost(arity): Ghost<nat>)
    requires
        points_of(old(out)@, arity),
        points_of(more@, arity),
    ensures
        points_of(final(out)@, arity),
        forall|n: nat|
            grids_ok(old(out)@, n) && grids_ok(more@, n) ==> #[trigger] grids_ok(final(out)@, n),
        forall|c: Netlist, env: Env| #[trigger]
            grids(c, env, final(out)@) == grids(c, env, old(out)@) + grids(c, env, more@),
{
    let ghost a = out@;
    let ghost m = more@;
    let mut more = more;
    out.append(&mut more);
    proof {
        assert(out@ == a + m);
        assert forall|i: int| 0 <= i < out@.len() implies (#[trigger] out@[i])@.len() == arity by {
            if i < a.len() {
                assert(out@[i] == a[i]);
            } else {
                assert(out@[i] == m[i - a.len()]);
            }
        }
        assert forall|n: nat| grids_ok(a, n) && grids_ok(m, n) implies #[trigger] grids_ok(
            out@,
            n,
        ) by {
            assert forall|i: int| 0 <= i < out@.len() implies elems_ok(#[trigger] out@[i]@, n) by {
                if i < a.len() {
                    assert(out@[i] == a[i]);
                    assert(elems_ok(a[i]@, n));
                } else {
                    assert(out@[i] == m[i - a.len()]);
                    assert(elems_ok(m[i - a.len()]@, n));
                }
            }
        }
        assert forall|c: Netlist, env: Env| #[trigger]
            grids(c, env, out@) == grids(c, env, a) + grids(c, env, m) by {
            assert(grids(c, env, out@) =~= grids(c, env, a) + grids(c, env, m));
        }
    }
}

/// The commitment's constraint.
#[verifier::rlimit(30)]
pub(crate) fn initial_constraint<T: CircuitTrait>(
    b: &mut T,
    cfg: &Config,
    d: &Data,
    t: &TranscriptWires,
    given: &Vec<Vec<Elem>>,
    Ghost(inputs): Ghost<Inputs>,
) -> (x: ConstraintWires)
    requires
        old(b).inv(),
        t.wf(*cfg, *d, old(b)@.next),
        grids_ok(given@, old(b)@.next),
        claims_measured(*cfg, *d, sizes(given@)),
        inputs.openings@.len() == d.openings@.len(),
    ensures
        final(b).inv(),
        netlist::ext(old(b)@, final(b)@),
        x.wf(final(b)@.next),
        x.arity == cfg.num_variables,
        forall|env: Env| #[trigger]
            x.model(final(b)@, env) == protocol::initial_constraint(
                *cfg,
                inputs.messages(old(b)@, env, d.messages()),
                t.draws(old(b)@, env),
                grids(old(b)@, env, given@),
            ),
{
    let ghost first = b@;
    let mut points: Vec<Vec<Elem>> = Vec::new();
    let mut i: usize = 0;
    proof {
        netlist::lemma_ext_refl(first);
        assert forall|env: Env| #[trigger]
            grids(b@, env, points@) == protocol::claims_points(
                *cfg,
                t.draws(first, env),
                grids(first, env, given@),
                0,
            ) by {
            assert(grids(b@, env, points@) =~= Seq::<Seq<Elt>>::empty());
        }
    }
    while i < cfg.claims.len() && i < d.openings.len()
        invariant
            b.inv(),
            netlist::ext(first, b@),
            t.wf(*cfg, *d, first.next),
            grids_ok(given@, first.next),
            claims_measured(*cfg, *d, sizes(given@)),
            i <= cfg.claims@.len(),
            i <= d.openings@.len(),
            points_of(points@, cfg.num_variables as nat),
            grids_ok(points@, b@.next),
            forall|env: Env| #[trigger]
                grids(b@, env, points@) == protocol::claims_points(
                    *cfg,
                    t.draws(first, env),
                    grids(first, env, given@),
                    i as nat,
                ),
        decreases cfg.claims@.len() - i,
    {
        let ghost c0 = b@;
        let ghost points0 = points@;
        proof {
            wire_transcript::lemma_transcript_wires_ext(*t, *cfg, *d, first, c0);
            wire_inputs::lemma_grids_ok(given@, first.next, c0.next);
        }
        let more = claim_points(b, cfg, d, t, given, i);
        let ghost m = more@;
        append_points(&mut points, more, Ghost(cfg.num_variables as nat));
        proof {
            wire_inputs::lemma_grids_ok(points0, c0.next, b@.next);
            assert forall|env: Env| #[trigger]
                grids(b@, env, points@) == protocol::claims_points(
                    *cfg,
                    t.draws(first, env),
                    grids(first, env, given@),
                    (i + 1) as nat,
                ) by {
                assert(grids(c0, env, points0) == protocol::claims_points(
                    *cfg,
                    t.draws(first, env),
                    grids(first, env, given@),
                    i as nat,
                ));
                wire_inputs::lemma_grids_ext(c0, b@, env, points0);
                wire_inputs::lemma_grids_ext(first, c0, env, given@);
                assert(t.draws(c0, env) == t.draws(first, env));
                assert(grids(b@, env, m) == protocol::claim_points(
                    *cfg,
                    t.draws(first, env),
                    grids(first, env, given@),
                    i as int,
                ));
                assert(grids(b@, env, points@) == grids(b@, env, points0) + grids(b@, env, m));
            }
        }
        i = i + 1;
    }
    let ghost c1 = b@;
    let ghost claimed = points@;
    if t.initial_ood_points.len() > 0 {
        let more = expand_all(b, t.initial_ood_points.as_slice(), cfg.num_variables);
        let ghost m = more@;
        append_points(&mut points, more, Ghost(cfg.num_variables as nat));
        proof {
            wire_inputs::lemma_grids_ok(claimed, c1.next, b@.next);
            assert forall|env: Env| true implies #[trigger] grids(b@, env, points@) == grids(
                c1,
                env,
                claimed,
            ) + protocol::ood_expanded(
                netlist::words(c1, env, t.initial_ood_points@),
                cfg.num_variables as nat,
            ) by {
                assert(grids(b@, env, points@) == grids(b@, env, claimed) + grids(b@, env, m));
                wire_inputs::lemma_grids_ext(c1, b@, env, claimed);
            }
        }
    } else {
        proof {
            assert forall|env: Env| true implies #[trigger] grids(b@, env, points@) == grids(
                c1,
                env,
                claimed,
            ) + protocol::ood_expanded(
                netlist::words(c1, env, t.initial_ood_points@),
                cfg.num_variables as nat,
            ) by {
                assert(grids(b@, env, points@) =~= grids(c1, env, claimed)
                    + protocol::ood_expanded(
                    netlist::words(c1, env, t.initial_ood_points@),
                    cfg.num_variables as nat,
                ));
            }
        }
    }
    let x = ConstraintWires {
        challenge: wires::copy_elem(&t.alpha),
        arity: cfg.num_variables,
        initial_power: 0,
        eq_points: points,
        direct_points: Vec::new(),
    };
    proof {
        assert forall|env: Env| #[trigger]
            x.model(b@, env) == protocol::initial_constraint(
                *cfg,
                inputs.messages(first, env, d.messages()),
                t.draws(first, env),
                grids(first, env, given@),
            ) by {
            assert(grids(b@, env, x.eq_points@) == grids(c1, env, claimed)
                + protocol::ood_expanded(
                netlist::words(c1, env, t.initial_ood_points@),
                cfg.num_variables as nat,
            ));
            assert(netlist::words(c1, env, t.initial_ood_points@) == netlist::words(
                first,
                env,
                t.initial_ood_points@,
            ));
            assert(grids(b@, env, x.direct_points@) =~= Seq::<Seq<Elt>>::empty());
            assert(netlist::bits(b@, env, t.alpha@) == netlist::bits(first, env, t.alpha@));
        }
    }
    x
}

/// The commitment's claim: openings, then out-of-domain answers, under alpha.
#[verifier::rlimit(30)]
pub(crate) fn initial_claim<T: CircuitTrait>(
    b: &mut T,
    cfg: &Config,
    d: &Data,
    inputs: &Inputs,
    t: &TranscriptWires,
) -> (claim: Elem)
    requires
        old(b).inv(),
        inputs.wf(*cfg, *d, old(b)@.next),
        t.wf(*cfg, *d, old(b)@.next),
    ensures
        final(b).inv(),
        netlist::ext(old(b)@, final(b)@),
        elem_ok(claim@, final(b)@.next),
        forall|env: Env| #[trigger]
            netlist::bits(final(b)@, env, claim@) == protocol::initial_claim(
                *cfg,
                inputs.messages(old(b)@, env, d.messages()),
                t.draws(old(b)@, env),
            ),
{
    let ghost first = b@;
    let ghost data = d.messages();
    let ghost evals = |env: Env, i: nat|
        protocol::claims_evals(inputs.messages(first, env, data), i);
    let ghost alpha = |env: Env| netlist::bits(first, env, t.alpha@);
    let mut claim = wires::zero_elem(b);
    let mut done: Vec<Elem> = Vec::new();
    let mut i: usize = 0;
    proof {
        netlist::lemma_ext_refl(first);
        assert forall|env: Env| true implies #[trigger] netlist::words(b@, env, done@)
            == evals(env, 0) by {
            assert(netlist::words(b@, env, done@) =~= Seq::<Elt>::empty());
        }
    }
    while i < cfg.claims.len() && i < inputs.openings.len()
        invariant
            b.inv(),
            netlist::ext(first, b@),
            data == d.messages(),
            inputs.wf(*cfg, *d, first.next),
            t.wf(*cfg, *d, first.next),
            i <= cfg.claims@.len(),
            i <= inputs.openings@.len(),
            evals == (|env: Env, i: nat|
                protocol::claims_evals(inputs.messages(first, env, data), i)),
            alpha == (|env: Env| netlist::bits(first, env, t.alpha@)),
            elem_ok(claim@, b@.next),
            elems_ok(done@, first.next),
            forall|env: Env| #[trigger]
                netlist::words(first, env, done@) == evals(env, i as nat),
            forall|env: Env| #[trigger]
                netlist::bits(b@, env, claim@) == protocol::combine(
                    field::zero128(),
                    alpha(env),
                    0,
                    evals(env, i as nat),
                ),
        decreases cfg.claims@.len() - i,
    {
        let ghost c0 = b@;
        let ghost claim0 = claim@;
        let ghost done0 = done@;
        let ghost group = inputs.openings@[i as int]@;
        assert(elems_ok(group, first.next));
        let shift = done.len();
        claim = wire_arith::combine_into(
            b,
            &claim,
            &t.alpha,
            shift,
            inputs.openings[i].as_slice(),
        );
        wires::extend(&mut done, inputs.openings[i].as_slice());
        proof {
            assert forall|env: Env| #[trigger]
                netlist::words(first, env, done@) == evals(env, (i + 1) as nat) by {
                assert(netlist::words(first, env, done0) == evals(env, i as nat));
                assert(inputs.messages(first, env, data).openings[i as int] == netlist::words(
                    first,
                    env,
                    group,
                ));
            }
            assert forall|env: Env| #[trigger]
                netlist::bits(b@, env, claim@) == protocol::combine(
                    field::zero128(),
                    alpha(env),
                    0,
                    evals(env, (i + 1) as nat),
                ) by {
                assert(netlist::bits(c0, env, claim0) == protocol::combine(
                    field::zero128(),
                    alpha(env),
                    0,
                    evals(env, i as nat),
                ));
                assert(netlist::words(first, env, done0) == evals(env, i as nat));
                let g = netlist::words(first, env, group);
                assert(netlist::words(c0, env, group) == g);
                assert(netlist::bits(c0, env, t.alpha@) == alpha(env));
                assert(inputs.messages(first, env, data).openings[i as int] == g);
                protocol::lemma_combine_concat(
                    field::zero128(),
                    alpha(env),
                    0,
                    evals(env, i as nat),
                    g,
                );
            }
        }
        i = i + 1;
    }
    let ghost c1 = b@;
    let ghost claim1 = claim@;
    if t.initial_ood_points.len() > 0 {
        let shift = done.len();
        claim = wire_arith::combine_into(
            b,
            &claim,
            &t.alpha,
            shift,
            inputs.initial_ood_answers.as_slice(),
        );
    }
    proof {
        assert forall|env: Env| #[trigger]
            netlist::bits(b@, env, claim@) == protocol::initial_claim(
                *cfg,
                inputs.messages(first, env, data),
                t.draws(first, env),
            ) by {
            let p = inputs.messages(first, env, data);
            assert(netlist::bits(c1, env, claim1) == protocol::combine(
                field::zero128(),
                alpha(env),
                0,
                evals(env, i as nat),
            ));
            assert(netlist::words(first, env, done@) == evals(env, i as nat));
            assert(protocol::claim_count(*cfg, p) == i);
            let a = netlist::words(first, env, inputs.initial_ood_answers@);
            assert(netlist::words(c1, env, inputs.initial_ood_answers@) == a);
            assert(netlist::bits(c1, env, t.alpha@) == alpha(env));
            protocol::lemma_combine_concat(
                field::zero128(),
                alpha(env),
                0,
                evals(env, i as nat),
                a,
            );
            if t.initial_ood_points@.len() == 0 {
                assert(evals(env, i as nat) + a =~= evals(env, i as nat));
            }
        }
    }
    claim
}

// ---------------------------------------------------------------------------
// The rounds.
// ---------------------------------------------------------------------------

/// The number of queries of round `i`, or of the final ones.
pub open spec fn queries_asked(cfg: Config, i: nat) -> nat {
    protocol::query_count(
        protocol::width_of(cfg, i),
        if i < cfg.rounds@.len() {
            cfg.rounds@[i as int].num_queries as nat
        } else {
            cfg.final_queries as nat
        },
    )
}

/// The proof has the sizes that the configuration asks for, with `points` the
/// arities of the given points.
pub open spec fn measured(cfg: Config, d: Data, points: Seq<nat>) -> bool {
    let n = d.rounds@.len();
    let all = reference::randomness_len(d, n) + d.final_sumcheck@.len();
    &&& reference::transcribable(cfg, d)
    &&& claims_measured(cfg, d, points)
    &&& cfg.num_variables <= all
    &&& forall|i: int|
        0 <= i < cfg.rounds@.len() ==> (#[trigger] cfg.rounds@[i]).num_variables <= all
    &&& reference::shaped_rows(d)
    &&& forall|i: nat|
        i <= n ==> (#[trigger] reference::opening_at(d, i)).rows@.len() == queries_asked(cfg, i)
    &&& forall|i: nat|
        i <= n ==> protocol::cap_shaped(
            #[trigger] protocol::cap_before(d.messages(), i),
            protocol::width_of(cfg, i),
        )
    &&& d.final_poly@.len() == pow2(d.final_sumcheck@.len())
}

/// Round `i`'s opening, or the final one: every row authenticated, and folded
/// at the previous folding randomness reversed.
#[verifier::rlimit(60)]
fn opened_folds<T: CircuitTrait>(
    b: &mut T,
    cfg: &Config,
    d: &Data,
    inputs: &Inputs,
    t: &TranscriptWires,
    i: usize,
    checks: &mut Vec<usize>,
    profile: &mut Profile,
    Ghost(base): Ghost<Netlist>,
    Ghost(points): Ghost<Seq<nat>>,
) -> (folds: Vec<Elem>)
    requires
        old(b).inv(),
        old(profile).wf(old(b)@),
        netlist::ext(base, old(b)@),
        inputs.wf(*cfg, *d, base.next),
        t.wf(*cfg, *d, base.next),
        measured(*cfg, *d, points),
        i <= d.rounds@.len(),
        netlist::below(old(checks)@, old(b)@.next),
    ensures
        final(b).inv(),
        netlist::ext(old(b)@, final(b)@),
        final(profile).wf(final(b)@),
        netlist::below(final(checks)@, final(b)@.next),
        folds@.len() == queries_asked(*cfg, i as nat),
        elems_ok(folds@, final(b)@.next),
        forall|env: Env| #[trigger]
            netlist::words(final(b)@, env, folds@) == protocol::folds(
                protocol::rows_of(inputs.messages(base, env, d.messages()), i as nat),
                protocol::reversed(
                    protocol::folding_before(t.draws(base, env), i as nat),
                ),
            ),
        forall|env: Env| #[trigger]
            hold(final(b)@, env, final(checks)@) == (hold(old(b)@, env, old(checks)@)
                && protocol::round_authentic(
                gadget_hash(),
                *cfg,
                inputs.messages(base, env, d.messages()),
                inputs.authentications(base, env),
                t.draws(base, env),
                i as nat,
            )),
{
    let ghost first = b@;
    let ghost data = d.messages();
    let n = d.rounds.len();
    proof {
        if i > 0 {
            assert(wire_transcript::round_wires_at(t.rounds@, *cfg, *d, i - 1, base.next));
            assert(wire_inputs::round_ok(inputs.rounds@[i - 1], *cfg, *d, i - 1, base.next));
        }
        if i < n {
            assert(wire_transcript::round_wires_at(t.rounds@, *cfg, *d, i as int, base.next));
            assert(wire_inputs::round_ok(inputs.rounds@[i as int], *cfg, *d, i as int, base.next));
        }
        assert(protocol::cap_shaped(
            protocol::cap_before(data, i as nat),
            protocol::width_of(*cfg, i as nat),
        ));
        assert(reference::opening_at(*d, i as nat).rows@.len() == queries_asked(*cfg, i as nat));
    }
    let folding = if i == 0 {
        &t.initial_folding
    } else {
        &t.rounds[i - 1].folding
    };
    let rev = wires::reversed(folding.as_slice());
    let cap = if i == 0 {
        &inputs.root
    } else {
        &inputs.rounds[i - 1].root
    };
    let opening = if i < n {
        &inputs.rounds[i].opening
    } else {
        &inputs.final_opening
    };
    let queries = if i < n {
        &t.rounds[i].queries
    } else {
        &t.final_queries
    };
    let width = if i < n {
        cfg.rounds[i].index_width
    } else {
        cfg.final_index_width
    };
    proof {
        let capb = protocol::cap_before(data, i as nat);
        assert(cap@.len() == 8 * capb.len());
        assert(cap@.len() / 256 == capb.len() / 32);
        wire_inputs::lemma_opening_ok(
            *opening,
            wire_inputs::depth_of(*cfg, *d, i as nat),
            base.next,
            first.next,
        );
        assert(folding@.len() == reference::folding_len(*d, i as nat));
        assert forall|q: int| 0 <= q < opening.rows@.len() implies (
        #[trigger] opening.rows@[q])@.len() == pow2(rev@.len()) by {
            assert(reference::opening_at(*d, i as nat).rows@[q]@.len() == pow2(
                reference::folding_len(*d, i as nat),
            ));
        }
    }
    let folds = wire_merkle::openings(
        b,
        opening,
        queries,
        width,
        cap,
        rev.as_slice(),
        checks,
        profile,
    );
    proof {
        assert forall|env: Env| true implies {
            let p = inputs.messages(base, env, data);
            let draws = t.draws(base, env);
            let auth = inputs.authentications(base, env);
            &&& opening.rows_at(first, env) == protocol::rows_of(p, i as nat)
            &&& opening.rows_at(first, env) == auth[i as int].rows
            &&& opening.paths_at(first, env) == auth[i as int].paths
            &&& #[trigger] wire_bytes(first, env, cap@) == protocol::cap_before(p, i as nat)
            &&& positions(first, env, queries@) == protocol::queries_of(draws, i as nat)
            &&& netlist::words(first, env, rev@) == protocol::reversed(
                protocol::folding_before(draws, i as nat),
            )
        } by {
            wire_inputs::lemma_opening_ext(
                base,
                first,
                env,
                *opening,
                wire_inputs::depth_of(*cfg, *d, i as nat),
            );
            wire_transcript::lemma_positions_ext(base, first, env, queries@, width as nat);
            assert(netlist::words(first, env, folding@) == netlist::words(base, env, folding@));
        }
        assert forall|env: Env| #[trigger]
            netlist::words(b@, env, folds@) == protocol::folds(
                protocol::rows_of(inputs.messages(base, env, data), i as nat),
                protocol::reversed(
                    protocol::folding_before(t.draws(base, env), i as nat),
                ),
            ) by {
            assert(wire_bytes(first, env, cap@) == protocol::cap_before(
                inputs.messages(base, env, data),
                i as nat,
            ));
        }
        assert forall|env: Env| #[trigger]
            hold(b@, env, checks@) == (hold(first, env, old(checks)@)
                && protocol::round_authentic(
                gadget_hash(),
                *cfg,
                inputs.messages(base, env, data),
                inputs.authentications(base, env),
                t.draws(base, env),
                i as nat,
            )) by {
            assert(wire_bytes(first, env, cap@) == protocol::cap_before(
                inputs.messages(base, env, data),
                i as nat,
            ));
        }
    }
    folds
}

/// Round `i`: its opening, the batched claim, its constraint and its sumcheck.
#[verifier::rlimit(60)]
pub(crate) fn round_part<T: CircuitTrait>(
    b: &mut T,
    cfg: &Config,
    d: &Data,
    inputs: &Inputs,
    t: &TranscriptWires,
    i: usize,
    claim: Elem,
    checks: &mut Vec<usize>,
    profile: &mut Profile,
    Ghost(base): Ghost<Netlist>,
    Ghost(points): Ghost<Seq<nat>>,
) -> (r: (Elem, ConstraintWires))
    requires
        old(b).inv(),
        old(profile).wf(old(b)@),
        netlist::ext(base, old(b)@),
        inputs.wf(*cfg, *d, base.next),
        t.wf(*cfg, *d, base.next),
        measured(*cfg, *d, points),
        i < d.rounds@.len(),
        netlist::below(old(checks)@, old(b)@.next),
        elem_ok(claim@, old(b)@.next),
        forall|env: Env| #[trigger]
            netlist::bits(old(b)@, env, claim@) == protocol::claim_after(
                *cfg,
                inputs.messages(base, env, d.messages()),
                t.draws(base, env),
                i as nat,
            ),
    ensures
        final(b).inv(),
        netlist::ext(old(b)@, final(b)@),
        final(profile).wf(final(b)@),
        netlist::below(final(checks)@, final(b)@.next),
        elem_ok(r.0@, final(b)@.next),
        r.1.wf(final(b)@.next),
        r.1.arity == cfg.rounds@[i as int].num_variables,
        forall|env: Env| #[trigger]
            netlist::bits(final(b)@, env, r.0@) == protocol::claim_after(
                *cfg,
                inputs.messages(base, env, d.messages()),
                t.draws(base, env),
                (i + 1) as nat,
            ),
        forall|env: Env| #[trigger]
            r.1.model(final(b)@, env) == protocol::round_constraint(
                *cfg,
                t.draws(base, env),
                i as int,
            ),
        forall|env: Env| #[trigger]
            hold(final(b)@, env, final(checks)@) == (hold(old(b)@, env, old(checks)@)
                && protocol::round_authentic(
                gadget_hash(),
                *cfg,
                inputs.messages(base, env, d.messages()),
                inputs.authentications(base, env),
                t.draws(base, env),
                i as nat,
            )),
{
    let ghost b0 = b@;
    let ghost data = d.messages();
    let ghost ck0 = checks@;
    let folds = opened_folds(
        b,
        cfg,
        d,
        inputs,
        t,
        i,
        checks,
        profile,
        Ghost(base),
        Ghost(points),
    );
    let ghost b1 = b@;
    let ghost ck1 = checks@;
    let rt = &t.rounds[i];
    let ri = &inputs.rounds[i];
    let rc = &cfg.rounds[i];
    proof {
        assert(wire_transcript::round_wires_at(t.rounds@, *cfg, *d, i as int, base.next));
        assert(wire_inputs::round_ok(*ri, *cfg, *d, i as int, base.next));
        assert(reference::round_transcribable(*rc, d.rounds@[i as int]));
    }
    let direct_points = query_points(
        b,
        rc.num_variables,
        &rt.queries,
        Ghost(rc.index_width as nat),
    );
    let ghost b2 = b@;
    profile.mark(b, Phase::QueryPoints);
    let eq_points = expand_all(b, rt.ood_points.as_slice(), rc.num_variables);
    let ghost b3 = b@;
    let with_ood = wire_arith::combine_into(
        b,
        &claim,
        &rt.combination,
        1,
        ri.ood_answers.as_slice(),
    );
    let ghost b4 = b@;
    let mut done = wires::copy_elems(ri.ood_answers.as_slice());
    done.push(wires::copy_elem(&rt.combination));
    let shift = done.len();
    let with_folds = wire_arith::combine_into(
        b,
        &with_ood,
        &rt.combination,
        shift,
        folds.as_slice(),
    );
    let ghost b5 = b@;
    let ghost wf5 = with_folds@;
    profile.mark(b, Phase::ClaimCombination);
    proof {
        wire_inputs::lemma_sumcheck_ok(
            ri.sumcheck@,
            rc.folding_pow_bits > 0,
            base.next,
            b5.next,
        );
    }
    let after = sumcheck_claim(
        b,
        with_folds,
        ri.sumcheck.as_slice(),
        rt.folding.as_slice(),
        Ghost(rc.folding_pow_bits > 0),
        Ghost(data.rounds[i as int].sumcheck),
    );
    profile.mark(b, Phase::SumcheckRounds);
    let x = ConstraintWires {
        challenge: wires::copy_elem(&rt.combination),
        arity: rc.num_variables,
        initial_power: 1,
        eq_points,
        direct_points,
    };
    proof {
        wire_inputs::lemma_grids_ok(eq_points@, b3.next, b@.next);
        wire_inputs::lemma_grids_ok(direct_points@, b2.next, b@.next);
        assert forall|env: Env| #[trigger]
            netlist::bits(b@, env, after@) == protocol::claim_after(
                *cfg,
                inputs.messages(base, env, data),
                t.draws(base, env),
                (i + 1) as nat,
            ) by {
            let p = inputs.messages(base, env, data);
            let draws = t.draws(base, env);
            let rd = p.rounds[i as int];
            let rch = draws.rounds[i as int];
            assert(netlist::bits(b3, env, claim@) == netlist::bits(b0, env, claim@));
            assert(netlist::bits(b3, env, rt.combination@) == rch.combination);
            assert(netlist::bits(b4, env, rt.combination@) == rch.combination);
            assert(netlist::words(b3, env, ri.ood_answers@) == rd.ood_answers);
            assert(netlist::words(b4, env, folds@) == netlist::words(b1, env, folds@));
            assert(protocol::rows_of(p, i as nat) == rd.rows);
            wire_inputs::lemma_sumcheck_ext(
                base,
                b5,
                env,
                ri.sumcheck@,
                rc.folding_pow_bits > 0,
                data.rounds[i as int].sumcheck,
            );
            assert(netlist::words(b5, env, rt.folding@) == rch.folding);
            assert(shift == 1 + rd.ood_answers.len());
        }
        assert forall|env: Env| #[trigger]
            x.model(b@, env) == protocol::round_constraint(
                *cfg,
                t.draws(base, env),
                i as int,
            ) by {
            let rch = t.draws(base, env).rounds[i as int];
            assert(netlist::bits(b@, env, rt.combination@) == rch.combination);
            wire_inputs::lemma_grids_ext(b3, b@, env, eq_points@);
            wire_inputs::lemma_grids_ext(b2, b@, env, direct_points@);
            assert(netlist::words(b2, env, rt.ood_points@) == rch.ood_points);
            wire_transcript::lemma_positions_ext(
                base,
                b1,
                env,
                rt.queries@,
                rc.index_width as nat,
            );
        }
        assert forall|env: Env| #[trigger]
            hold(b@, env, checks@) == (hold(b0, env, ck0) && protocol::round_authentic(
                gadget_hash(),
                *cfg,
                inputs.messages(base, env, data),
                inputs.authentications(base, env),
                t.draws(base, env),
                i as nat,
            )) by {
            assert(netlist::bits(b@, env, ck1) == netlist::bits(b1, env, ck1));
            assert(hold(b1, env, ck1) == (hold(b0, env, ck0) && protocol::round_authentic(
                gadget_hash(),
                *cfg,
                inputs.messages(base, env, data),
                inputs.authentications(base, env),
                t.draws(base, env),
                i as nat,
            )));
        }
    }
    (after, x)
}

// ---------------------------------------------------------------------------
// The end.
// ---------------------------------------------------------------------------

/// The first `k` final queries fold to the final polynomial.
pub open spec fn finals_up_to(p: ProofM, draws: Draws, k: int) -> bool {
    forall|q: int| 0 <= q < k ==> #[trigger] protocol::final_query_ok(p, draws, q)
}

/// The final openings against the final polynomial.
#[verifier::rlimit(60)]
pub(crate) fn final_queries<T: CircuitTrait>(
    b: &mut T,
    cfg: &Config,
    d: &Data,
    inputs: &Inputs,
    t: &TranscriptWires,
    checks: &mut Vec<usize>,
    profile: &mut Profile,
    Ghost(base): Ghost<Netlist>,
    Ghost(points): Ghost<Seq<nat>>,
)
    requires
        old(b).inv(),
        old(profile).wf(old(b)@),
        netlist::ext(base, old(b)@),
        inputs.wf(*cfg, *d, base.next),
        t.wf(*cfg, *d, base.next),
        measured(*cfg, *d, points),
        netlist::below(old(checks)@, old(b)@.next),
    ensures
        final(b).inv(),
        netlist::ext(old(b)@, final(b)@),
        final(profile).wf(final(b)@),
        netlist::below(final(checks)@, final(b)@.next),
        forall|env: Env| #[trigger]
            hold(final(b)@, env, final(checks)@) == (hold(old(b)@, env, old(checks)@)
                && protocol::round_authentic(
                gadget_hash(),
                *cfg,
                inputs.messages(base, env, d.messages()),
                inputs.authentications(base, env),
                t.draws(base, env),
                d.rounds@.len(),
            ) && finals_up_to(
                inputs.messages(base, env, d.messages()),
                t.draws(base, env),
                t.final_queries@.len() as int,
            )),
{
    let ghost b0 = b@;
    let ghost data = d.messages();
    let ghost ck0 = checks@;
    let n = d.rounds.len();
    let folds = opened_folds(
        b,
        cfg,
        d,
        inputs,
        t,
        n,
        checks,
        profile,
        Ghost(base),
        Ghost(points),
    );
    let ghost b1 = b@;
    let ghost ck1 = checks@;
    proof {
        vstd::arithmetic::power2::lemma_pow2_pos(d.final_sumcheck@.len());
        protocol::lemma_log2_pow2(d.final_sumcheck@.len());
        netlist::lemma_ext_refl(b1);
    }
    let final_vars = reference::floor_log2(inputs.final_poly.len());
    let count = t.final_queries.len();
    let ghost good = |env: Env, k: int|
        finals_up_to(inputs.messages(base, env, data), t.draws(base, env), k);
    let mut q: usize = 0;
    while q < count
        invariant
            b.inv(),
            profile.wf(b@),
            data == d.messages(),
            netlist::ext(base, b1),
            netlist::ext(b1, b@),
            inputs.wf(*cfg, *d, base.next),
            t.wf(*cfg, *d, base.next),
            reference::narrow(cfg.final_index_width),
            n == d.rounds@.len(),
            q <= count == t.final_queries@.len(),
            folds@.len() == count,
            elems_ok(folds@, b1.next),
            final_vars == protocol::log2(inputs.final_poly@.len()),
            inputs.final_poly@.len() == pow2(final_vars as nat),
            netlist::below(checks@, b@.next),
            reference::opening_at(*d, n as nat).rows@.len() == count,
            forall|env: Env| #[trigger]
                netlist::words(b1, env, folds@) == protocol::folds(
                    protocol::rows_of(inputs.messages(base, env, data), n as nat),
                    protocol::reversed(
                        protocol::folding_before(t.draws(base, env), n as nat),
                    ),
                ),
            good == (|env: Env, k: int|
                finals_up_to(inputs.messages(base, env, data), t.draws(base, env), k)),
            forall|env: Env| #[trigger]
                hold(b@, env, checks@) == (hold(b1, env, ck1) && good(env, q as int)),
        decreases count - q,
    {
        let ghost c0 = b@;
        let ghost k0 = checks@;
        proof {
            assert(t.final_queries@[q as int]@.len() == cfg.final_index_width
                && netlist::below(t.final_queries@[q as int]@, base.next));
            assert(elem_ok(folds@[q as int]@, b1.next));
        }
        let point = wire_arith::query_point(b, final_vars, t.final_queries[q].as_slice());
        let ghost c1 = b@;
        profile.mark(b, Phase::QueryPoints);
        let at = wire_arith::eval_coefficients(b, inputs.final_poly.as_slice(), point.as_slice());
        let ghost c2 = b@;
        let check = wires::equal(b, at.as_slice(), folds[q].as_slice());
        checks.push(check);
        profile.mark(b, Phase::FinalPolynomial);
        proof {
            assert forall|env: Env| #[trigger]
                hold(b@, env, checks@) == (hold(b1, env, ck1) && good(env, q + 1)) by {
                let p = inputs.messages(base, env, data);
                let draws = t.draws(base, env);
                assert(hold(c0, env, k0) == (hold(b1, env, ck1) && good(env, q as int)));
                wire_transcript::lemma_hold_push(b@, env, k0, check);
                assert(netlist::bits(b@, env, k0) == netlist::bits(c0, env, k0));
                assert(netlist::bits(c0, env, t.final_queries@[q as int]@) == netlist::bits(
                    base,
                    env,
                    t.final_queries@[q as int]@,
                ));
                assert(draws.final_queries[q as int] == bytes::nat_of(
                    netlist::bits(base, env, t.final_queries@[q as int]@),
                ));
                assert(netlist::words(c1, env, inputs.final_poly@) == p.final_poly);
                assert(netlist::words(b1, env, folds@)[q as int] == netlist::bits(
                    b1,
                    env,
                    folds@[q as int]@,
                ));
                assert(netlist::bits(c2, env, folds@[q as int]@) == netlist::bits(
                    b1,
                    env,
                    folds@[q as int]@,
                ));
                assert(protocol::rows_of(p, n as nat) == p.final_rows);
                assert(netlist::value(b@, env, check as int) == protocol::final_query_ok(
                    p,
                    draws,
                    q as int,
                ));
                if good(env, q + 1) {
                    assert(protocol::final_query_ok(p, draws, q as int));
                }
            }
        }
        q = q + 1;
    }
    proof {
        assert forall|env: Env| #[trigger]
            hold(b@, env, checks@) == (hold(b0, env, ck0) && protocol::round_authentic(
                gadget_hash(),
                *cfg,
                inputs.messages(base, env, data),
                inputs.authentications(base, env),
                t.draws(base, env),
                d.rounds@.len(),
            ) && good(env, count as int)) by {
            assert(hold(b1, env, ck1) == (hold(b0, env, ck0) && protocol::round_authentic(
                gadget_hash(),
                *cfg,
                inputs.messages(base, env, data),
                inputs.authentications(base, env),
                t.draws(base, env),
                n as nat,
            )));
        }
    }
}

/// The randomness drawn up to the end of round `i`.
pub(crate) fn randomness<T: CircuitTrait>(b: &T, d: &Data, t: &TranscriptWires, Ghost(cfg): Ghost<Config>) -> (r: Vec<Elem>)
    requires
        t.wf(cfg, *d, b@.next),
    ensures
        elems_ok(r@, b@.next),
        r@.len() == reference::randomness_len(*d, d.rounds@.len()) + d.final_sumcheck@.len(),
        forall|env: Env| #[trigger]
            netlist::words(b@, env, r@) == protocol::all_randomness(t.draws(b@, env)),
{
    let ghost c = b@;
    let mut all = wires::copy_elems(t.initial_folding.as_slice());
    let mut i: usize = 0;
    while i < t.rounds.len()
        invariant
            c == b@,
            t.wf(cfg, *d, c.next),
            i <= t.rounds@.len(),
            elems_ok(all@, c.next),
            all@.len() == reference::randomness_len(*d, i as nat),
            forall|env: Env| #[trigger]
                netlist::words(c, env, all@) == protocol::randomness_after(
                    t.draws(c, env),
                    i as nat,
                ),
        decreases t.rounds@.len() - i,
    {
        let ghost all0 = all@;
        assert(wire_transcript::round_wires_at(t.rounds@, cfg, *d, i as int, c.next));
        wires::extend(&mut all, t.rounds[i].folding.as_slice());
        proof {
            assert forall|env: Env| #[trigger]
                netlist::words(c, env, all@) == protocol::randomness_after(
                    t.draws(c, env),
                    (i + 1) as nat,
                ) by {
                assert(netlist::words(c, env, all0) == protocol::randomness_after(
                    t.draws(c, env),
                    i as nat,
                ));
                assert(t.draws(c, env).rounds[i as int].folding == netlist::words(
                    c,
                    env,
                    t.rounds@[i as int].folding@,
                ));
            }
        }
        i = i + 1;
    }
    let ghost all1 = all@;
    wires::extend(&mut all, t.final_folding.as_slice());
    let r = wires::reversed(all.as_slice());
    proof {
        assert forall|env: Env| #[trigger]
            netlist::words(c, env, r@) == protocol::all_randomness(t.draws(c, env)) by {
            assert(netlist::words(c, env, all1) == protocol::randomness_after(
                t.draws(c, env),
                t.rounds@.len(),
            ));
            assert(netlist::words(c, env, r@) == protocol::reversed(
                netlist::words(c, env, all@),
            ));
        }
    }
    r
}

/// The weights of the commitment's constraint and of the rounds'.
#[verifier::rlimit(60)]
pub(crate) fn total_weight<T: CircuitTrait>(
    b: &mut T,
    first_constraint: &ConstraintWires,
    constraints: &Vec<ConstraintWires>,
    rev: &[Elem],
    profile: &mut Profile,
    Ghost(weights): Ghost<spec_fn(Env, nat) -> Elt>,
) -> (total: Elem)
    requires
        old(b).inv(),
        old(profile).wf(old(b)@),
        first_constraint.wf(old(b)@.next),
        first_constraint.arity <= rev@.len(),
        forall|j: int|
            0 <= j < constraints@.len() ==> (#[trigger] constraints@[j]).wf(old(b)@.next)
                && constraints@[j].arity <= rev@.len(),
        elems_ok(rev@, old(b)@.next),
        forall|env: Env|
            #[trigger] weights(env, 0) == field::plus(
                field::zero128(),
                protocol::constraint_weight(
                    first_constraint.model(old(b)@, env),
                    netlist::words(old(b)@, env, rev@),
                ),
            ),
        forall|env: Env, k: nat|
            0 < k <= constraints@.len() ==> #[trigger] weights(env, k) == field::plus(
                weights(env, (k - 1) as nat),
                protocol::constraint_weight(
                    constraints@[k - 1].model(old(b)@, env),
                    netlist::words(old(b)@, env, rev@),
                ),
            ),
    ensures
        final(b).inv(),
        netlist::ext(old(b)@, final(b)@),
        final(profile).wf(final(b)@),
        elem_ok(total@, final(b)@.next),
        forall|env: Env| #[trigger]
            netlist::bits(final(b)@, env, total@) == weights(env, constraints@.len()),
{
    let ghost first = b@;
    let zero = wires::zero_elem(b);
    let w = constraint_weight(b, first_constraint, rev, profile);
    let ghost c1 = b@;
    let mut total = crate::whir_gc::wires::add(b, &zero, &w);
    profile.mark(b, Phase::ClaimCombination);
    proof {
        assert forall|env: Env| #[trigger]
            netlist::bits(b@, env, total@) == weights(env, 0) by {
            assert(netlist::bits(c1, env, zero@) == netlist::bits(first, env, zero@));
        }
    }
    let mut k: usize = 0;
    while k < constraints.len()
        invariant
            b.inv(),
            profile.wf(b@),
            netlist::ext(first, b@),
            k <= constraints@.len(),
            forall|j: int|
                0 <= j < constraints@.len() ==> (#[trigger] constraints@[j]).wf(first.next)
                    && constraints@[j].arity <= rev@.len(),
            elems_ok(rev@, first.next),
            elem_ok(total@, b@.next),
            forall|env: Env, k: nat|
                0 < k <= constraints@.len() ==> #[trigger] weights(env, k) == field::plus(
                    weights(env, (k - 1) as nat),
                    protocol::constraint_weight(
                        constraints@[k - 1].model(first, env),
                        netlist::words(first, env, rev@),
                    ),
                ),
            forall|env: Env| #[trigger]
                netlist::bits(b@, env, total@) == weights(env, k as nat),
        decreases constraints@.len() - k,
    {
        let ghost c0 = b@;
        let ghost total0 = total@;
        proof {
            assert(constraints@[k as int].wf(first.next));
            lemma_constraint_ext(constraints@[k as int], first, c0);
        }
        let w = constraint_weight(b, &constraints[k], rev, profile);
        let ghost c2 = b@;
        total = crate::whir_gc::wires::add(b, &total, &w);
        profile.mark(b, Phase::ClaimCombination);
        proof {
            assert forall|env: Env| #[trigger]
                netlist::bits(b@, env, total@) == weights(env, (k + 1) as nat) by {
                assert(netlist::bits(c0, env, total0) == weights(env, k as nat));
                assert(netlist::bits(c2, env, total0) == netlist::bits(c0, env, total0));
                assert(netlist::words(c0, env, rev@) == netlist::words(first, env, rev@));
                assert(constraints@[k as int].model(c0, env) == constraints@[k as int].model(
                    first,
                    env,
                ));
            }
        }
        k = k + 1;
    }
    total
}

} // verus!

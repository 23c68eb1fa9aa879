//! The transcript on wires: what the verifier draws, from the proof's input
//! wires.
use super::bytes;
use super::field;
use super::field::Elt;
use super::gates::CircuitTrait;
use super::netlist;
use super::netlist::{Env, Netlist};
use super::protocol;
use super::protocol::{Draws, RoundDraws, RoundM, SumcheckM};
use super::reference;
use super::reference::{Config, Data, RoundConfig};
use super::wire_inputs;
use super::wire_inputs::{grids, grids_ok, Inputs, RoundInputs, SumcheckInputs};
use super::wire_sponge;
use super::wire_sponge::{gadget_machine, Sponge};
use super::wires;
use super::wires::{elem_ok, elems_ok, Elem};
use vstd::arithmetic::power2::pow2;
use vstd::prelude::*;

verus! {

broadcast use {
    netlist::group_netlist,
    wire_sponge::lemma_sponge_ext,
    wire_sponge::lemma_sponge_wf,
};

/// The positions that some index wires name, bit 0 first.
pub open spec fn positions(c: Netlist, env: Env, qs: Seq<Vec<usize>>) -> Seq<nat> {
    Seq::new(qs.len(), |q: int| bytes::nat_of(netlist::bits(c, env, qs[q]@)))
}

pub broadcast proof fn lemma_positions_ext(
    a: Netlist,
    b: Netlist,
    env: Env,
    qs: Seq<Vec<usize>>,
    width: nat,
)
    requires
        #[trigger] netlist::ext(a, b),
        #[trigger] netlist::all_below(qs, width, a.next),
    ensures
        #[trigger] positions(b, env, qs) == positions(a, env, qs),
{
    assert forall|q: int| 0 <= q < qs.len() implies positions(b, env, qs)[q] == positions(
        a,
        env,
        qs,
    )[q] by {
        assert(netlist::below(qs[q]@, a.next));
    }
    assert(positions(b, env, qs) =~= positions(a, env, qs));
}

/// Every check wire carries 1.
pub open spec fn hold(c: Netlist, env: Env, ws: Seq<usize>) -> bool {
    wires::all(netlist::bits(c, env, ws))
}

/// One more check.
pub proof fn lemma_hold_push(c: Netlist, env: Env, ws: Seq<usize>, w: usize)
    ensures
        hold(c, env, ws.push(w)) == (hold(c, env, ws) && netlist::value(c, env, w as int)),
{
    let all = netlist::bits(c, env, ws.push(w));
    let some = netlist::bits(c, env, ws);
    if hold(c, env, ws.push(w)) {
        assert(all[ws.len() as int]);
        assert forall|i: int| 0 <= i < some.len() implies #[trigger] some[i] by {
            assert(all[i]);
        }
    }
    if hold(c, env, ws) && netlist::value(c, env, w as int) {
        assert forall|i: int| 0 <= i < all.len() implies #[trigger] all[i] by {
            if i < ws.len() {
                assert(some[i]);
            }
        }
    }
}

/// The wires of a constant's low bits.
fn const_bits<T: CircuitTrait>(b: &mut T, v: usize, n: usize) -> (r: Vec<usize>)
    requires
        old(b).inv(),
        v < pow2(n as nat),
    ensures
        final(b).inv(),
        final(b)@ == old(b)@,
        r@.len() == n,
        netlist::below(r@, final(b)@.next),
        forall|env: Env| #[trigger] bytes::nat_of(netlist::bits(final(b)@, env, r@)) == v,
{
    let ghost first = b@;
    let zero = b.zero();
    let one = b.one();
    let mut r: Vec<usize> = Vec::new();
    let mut x: usize = v;
    proof {
        vstd::arithmetic::power2::lemma2_to64();
        assert(pow2(0) * x == x) by (nonlinear_arith)
            requires
                pow2(0) == 1,
        ;
        b.lemma_inv();
        assert forall|env: Env| true implies #[trigger] netlist::value(first, env, 0) == false by {
            netlist::lemma_constants(first, env);
        }
        assert forall|env: Env| true implies #[trigger] netlist::value(first, env, 1) == true by {
            netlist::lemma_constants(first, env);
        }
    }
    while r.len() < n
        invariant
            b.inv(),
            b@ == first,
            zero == 0,
            one == 1,
            first.next >= 2,
            r@.len() <= n,
            netlist::below(r@, first.next),
            forall|env: Env| #[trigger] netlist::value(first, env, 0) == false,
            forall|env: Env| #[trigger] netlist::value(first, env, 1) == true,
            forall|env: Env| #[trigger]
                bytes::nat_of(netlist::bits(first, env, r@)) + pow2(r@.len()) * x == v,
        decreases n - r@.len(),
    {
        let ghost r0 = r@;
        let ghost x0 = x;
        let w = if x % 2 == 1 {
            one
        } else {
            zero
        };
        r.push(w);
        x = x / 2;
        proof {
            vstd::arithmetic::power2::lemma_pow2_unfold(r@.len());
            let p = pow2(r0.len());
            assert(pow2(r@.len()) * x == p * (2 * x)) by (nonlinear_arith)
                requires
                    pow2(r@.len()) == 2 * p,
            ;
            assert(p * (2 * x) + p * (x0 as nat % 2) == p * x0) by (nonlinear_arith)
                requires
                    x0 == 2 * x + x0 as nat % 2,
            ;
            assert(p * 1 == p) by (nonlinear_arith);
            assert(p * 0 == 0) by (nonlinear_arith);
            assert forall|env: Env| #[trigger]
                bytes::nat_of(netlist::bits(first, env, r@)) + pow2(r@.len()) * x == v by {
                let s = netlist::bits(first, env, r@);
                assert(s.drop_last() =~= netlist::bits(first, env, r0));
                assert(bytes::nat_of(netlist::bits(first, env, r0)) + p * x0 == v);
                assert(s.last() == netlist::value(first, env, w as int));
            }
        }
    }
    proof {
        assert forall|env: Env| #[trigger] bytes::nat_of(netlist::bits(first, env, r@)) == v by {
            let s = bytes::nat_of(netlist::bits(first, env, r@));
            assert(s + pow2(n as nat) * x == v);
            assert(x == 0) by (nonlinear_arith)
                requires
                    s + pow2(n as nat) * x == v,
                    v < pow2(n as nat),
                    s >= 0,
                    x >= 0,
            ;
            assert(pow2(n as nat) * 0 == 0) by (nonlinear_arith);
        }
    }
    r
}

/// All the positions of a width.
fn every_position<T: CircuitTrait>(b: &mut T, width: usize) -> (out: Vec<Vec<usize>>)
    requires
        old(b).inv(),
        width < usize::BITS,
    ensures
        final(b).inv(),
        final(b)@ == old(b)@,
        out@.len() == pow2(width as nat),
        netlist::all_below(out@, width as nat, final(b)@.next),
        forall|env: Env| #[trigger]
            positions(final(b)@, env, out@) == Seq::new(pow2(width as nat), |i: int| i as nat),
{
    let ghost first = b@;
    let n = reference::two_to(width);
    let mut out: Vec<Vec<usize>> = Vec::new();
    while out.len() < n
        invariant
            b.inv(),
            b@ == first,
            n == pow2(width as nat),
            out@.len() <= n,
            netlist::all_below(out@, width as nat, first.next),
            forall|env: Env, i: int|
                0 <= i < out@.len() ==> #[trigger] bytes::nat_of(
                    netlist::bits(first, env, out@[i]@),
                ) == i,
        decreases n - out@.len(),
    {
        let k = out.len();
        let ghost out0 = out@;
        let w = const_bits(b, k, width);
        out.push(w);
        proof {
            assert forall|env: Env, i: int| 0 <= i < out@.len() implies #[trigger] bytes::nat_of(
                netlist::bits(first, env, out@[i]@),
            ) == i by {
                if i < k {
                    assert(out@[i] == out0[i]);
                    assert(bytes::nat_of(netlist::bits(first, env, out0[i]@)) == i);
                }
            }
        }
    }
    proof {
        assert forall|env: Env| #[trigger]
            positions(first, env, out@) == Seq::new(pow2(width as nat), |i: int| i as nat) by {
            let got = positions(first, env, out@);
            let want = Seq::new(pow2(width as nat), |i: int| i as nat);
            assert forall|i: int| 0 <= i < got.len() implies got[i] == want[i] by {
                assert(bytes::nat_of(netlist::bits(first, env, out@[i]@)) == i);
            }
            assert(got =~= want);
        }
    }
    out
}

/// The draws of one partition: stratum `j`'s query has its drawn bits low and
/// the bits of `j`, constants, high.
fn strata<T: CircuitTrait>(b: &mut T, s: &mut Sponge, width: usize, depth: usize) -> (out: Vec<
    Vec<usize>,
>)
    requires
        old(b).inv(),
        old(s).wf(old(b)@.next),
        width <= 64,
        width < usize::BITS,
        depth <= width,
    ensures
        final(b).inv(),
        netlist::ext(old(b)@, final(b)@),
        final(s).wf(final(b)@.next),
        out@.len() == pow2(depth as nat),
        netlist::all_below(out@, width as nat, final(b)@.next),
        forall|env: Env| #[trigger]
            final(s).st(final(b)@, env) == protocol::strata(
                gadget_machine(),
                old(s).st(old(b)@, env),
                width as nat,
                depth as nat,
                pow2(depth as nat),
            ).0,
        forall|env: Env| #[trigger]
            positions(final(b)@, env, out@) == protocol::strata(
                gadget_machine(),
                old(s).st(old(b)@, env),
                width as nat,
                depth as nat,
                pow2(depth as nat),
            ).1,
{
    let ghost first = b@;
    let ghost s0 = *s;
    let ghost m = gadget_machine();
    let count = reference::two_to(depth);
    let mut out: Vec<Vec<usize>> = Vec::new();
    proof {
        netlist::lemma_ext_refl(first);
        assert forall|env: Env| #[trigger]
            positions(b@, env, out@) == protocol::strata(
                m,
                s0.st(first, env),
                width as nat,
                depth as nat,
                0,
            ).1 by {
            assert(positions(b@, env, out@) =~= Seq::<nat>::empty());
        }
    }
    while out.len() < count
        invariant
            b.inv(),
            m == gadget_machine(),
            netlist::ext(first, b@),
            s.wf(b@.next),
            width <= 64,
            width < usize::BITS,
            depth <= width,
            count == pow2(depth as nat),
            out@.len() <= count,
            netlist::all_below(out@, width as nat, b@.next),
            forall|env: Env| #[trigger]
                s.st(b@, env) == protocol::strata(
                    m,
                    s0.st(first, env),
                    width as nat,
                    depth as nat,
                    out@.len(),
                ).0,
            forall|env: Env| #[trigger]
                positions(b@, env, out@) == protocol::strata(
                    m,
                    s0.st(first, env),
                    width as nat,
                    depth as nat,
                    out@.len(),
                ).1,
        decreases count - out@.len(),
    {
        let k = out.len();
        let ghost c0 = b@;
        let ghost s1 = *s;
        let ghost out0 = out@;
        let mut bits = s.sample_bits(b, width - depth);
        let ghost low = bits@;
        let mut high = const_bits(b, k, depth);
        let ghost top = high@;
        bits.append(&mut high);
        let ghost w = bits@;
        assert(w == low + top);
        out.push(bits);
        proof {
            assert(netlist::below(w, b@.next));
            assert forall|i: int| 0 <= i < out@.len() implies (#[trigger] out@[i])@.len() == width
                && netlist::below(out@[i]@, b@.next) by {
                if i < k {
                    assert(out@[i] == out0[i]);
                    assert(out0[i]@.len() == width && netlist::below(out0[i]@, c0.next));
                }
            }
            assert forall|env: Env| #[trigger]
                s.st(b@, env) == protocol::strata(
                    m,
                    s0.st(first, env),
                    width as nat,
                    depth as nat,
                    out@.len(),
                ).0 by {
                assert(s1.st(c0, env) == protocol::strata(
                    m,
                    s0.st(first, env),
                    width as nat,
                    depth as nat,
                    out0.len(),
                ).0);
            }
            assert forall|env: Env| #[trigger]
                positions(b@, env, out@) == protocol::strata(
                    m,
                    s0.st(first, env),
                    width as nat,
                    depth as nat,
                    out@.len(),
                ).1 by {
                assert(s1.st(c0, env) == protocol::strata(
                    m,
                    s0.st(first, env),
                    width as nat,
                    depth as nat,
                    out0.len(),
                ).0);
                let drawn = netlist::bits(b@, env, low);
                let fixed = netlist::bits(b@, env, top);
                assert(netlist::bits(b@, env, w) =~= drawn + fixed);
                bytes::lemma_nat_of_concat(drawn, fixed);
                assert(bytes::nat_of(fixed) == k);
                assert(pow2((width - depth) as nat) * k == k * pow2((width - depth) as nat))
                    by (nonlinear_arith);
                assert(positions(c0, env, out0) == positions(b@, env, out0));
                assert(positions(b@, env, out@) =~= positions(b@, env, out0).push(
                    bytes::nat_of(netlist::bits(b@, env, w)),
                ));
            }
        }
    }
    out
}

/// The queried positions on wires.
pub(crate) fn stir_queries<T: CircuitTrait>(
    b: &mut T,
    s: &mut Sponge,
    index_width: usize,
    num_queries: usize,
) -> (out: Vec<Vec<usize>>)
    requires
        old(b).inv(),
        old(s).wf(old(b)@.next),
        reference::narrow(index_width),
    ensures
        final(b).inv(),
        netlist::ext(old(b)@, final(b)@),
        final(s).wf(final(b)@.next),
        out@.len() == protocol::query_count(index_width as nat, num_queries as nat),
        netlist::all_below(out@, index_width as nat, final(b)@.next),
        forall|env: Env| #[trigger]
            final(s).st(final(b)@, env) == protocol::stir_queries(
                gadget_machine(),
                old(s).st(old(b)@, env),
                index_width as nat,
                num_queries as nat,
            ).0,
        forall|env: Env| #[trigger]
            positions(final(b)@, env, out@) == protocol::stir_queries(
                gadget_machine(),
                old(s).st(old(b)@, env),
                index_width as nat,
                num_queries as nat,
            ).1,
{
    let ghost first = b@;
    let ghost s0 = *s;
    let ghost m = gadget_machine();
    let ghost width = index_width as nat;
    let draws = reference::query_draws(index_width, num_queries);
    proof {
        netlist::lemma_ext_refl(first);
    }
    if draws == 0 {
        return every_position(b, index_width);
    }
    let depths = reference::summand_depths(draws);
    let ghost ds = reference::nats(depths@);
    let mut out: Vec<Vec<usize>> = Vec::new();
    let mut k: usize = 0;
    proof {
        assert(ds.take(0) =~= Seq::<nat>::empty());
        assert forall|env: Env| #[trigger]
            positions(b@, env, out@) == protocol::partitions(
                m,
                s0.st(first, env),
                width,
                ds.take(0),
            ).1 by {
            assert(positions(b@, env, out@) =~= Seq::<nat>::empty());
        }
    }
    while k < depths.len()
        invariant
            b.inv(),
            m == gadget_machine(),
            width == index_width,
            netlist::ext(first, b@),
            s.wf(b@.next),
            reference::narrow(index_width),
            draws < pow2(width),
            k <= depths@.len(),
            ds == reference::nats(depths@),
            forall|i: int|
                0 <= i < depths@.len() ==> (#[trigger] depths@[i]) < usize::BITS && pow2(
                    depths@[i] as nat,
                ) <= draws,
            netlist::all_below(out@, width, b@.next),
            forall|env: Env| #[trigger]
                s.st(b@, env) == protocol::partitions(
                    m,
                    s0.st(first, env),
                    width,
                    ds.take(k as int),
                ).0,
            forall|env: Env| #[trigger]
                positions(b@, env, out@) == protocol::partitions(
                    m,
                    s0.st(first, env),
                    width,
                    ds.take(k as int),
                ).1,
        decreases depths@.len() - k,
    {
        let depth = depths[k];
        proof {
            if depth > index_width {
                vstd::arithmetic::power2::lemma_pow2_strictly_increases(width, depth as nat);
            }
        }
        let ghost c0 = b@;
        let ghost s1 = *s;
        let ghost out0 = out@;
        let mut more = strata(b, s, index_width, depth);
        let ghost new = more@;
        out.append(&mut more);
        proof {
            assert(ds.take(k + 1).drop_last() =~= ds.take(k as int));
            assert(ds.take(k + 1).last() == depth as nat);
            assert forall|i: int| 0 <= i < out@.len() implies (#[trigger] out@[i])@.len() == width
                && netlist::below(out@[i]@, b@.next) by {
                if i < out0.len() {
                    assert(out@[i] == out0[i]);
                    assert(out0[i]@.len() == width && netlist::below(out0[i]@, c0.next));
                } else {
                    assert(out@[i] == new[i - out0.len()]);
                }
            }
            assert forall|env: Env| #[trigger]
                s.st(b@, env) == protocol::partitions(
                    m,
                    s0.st(first, env),
                    width,
                    ds.take(k + 1),
                ).0 by {
                assert(s1.st(c0, env) == protocol::partitions(
                    m,
                    s0.st(first, env),
                    width,
                    ds.take(k as int),
                ).0);
            }
            assert forall|env: Env| #[trigger]
                positions(b@, env, out@) == protocol::partitions(
                    m,
                    s0.st(first, env),
                    width,
                    ds.take(k + 1),
                ).1 by {
                assert(s1.st(c0, env) == protocol::partitions(
                    m,
                    s0.st(first, env),
                    width,
                    ds.take(k as int),
                ).0);
                assert(positions(c0, env, out0) == positions(b@, env, out0));
                assert(positions(b@, env, new) == protocol::strata(
                    m,
                    s1.st(c0, env),
                    width,
                    depth as nat,
                    pow2(depth as nat),
                ).1);
                assert(positions(b@, env, out@) =~= positions(b@, env, out0) + positions(
                    b@,
                    env,
                    new,
                ));
            }
        }
        k = k + 1;
    }
    proof {
        assert(ds.take(k as int) =~= ds);
        let env: Env = |i: int| false;
        protocol::law_query_count(m, s0.st(first, env), width, num_queries as nat);
        assert(positions(b@, env, out@).len() == out@.len());
    }
    out
}

/// A grinding check, where there is grinding: one more wire of `checks`.
fn grind<T: CircuitTrait>(
    b: &mut T,
    s: &mut Sponge,
    pow_bits: usize,
    witness: &Option<Elem>,
    checks: &mut Vec<usize>,
    Ghost(fallback): Ghost<Elt>,
)
    requires
        old(b).inv(),
        old(s).wf(old(b)@.next),
        reference::narrow(pow_bits),
        wire_inputs::optional_ok(*witness, pow_bits > 0, old(b)@.next),
        netlist::below(old(checks)@, old(b)@.next),
    ensures
        final(b).inv(),
        netlist::ext(old(b)@, final(b)@),
        final(s).wf(final(b)@.next),
        netlist::below(final(checks)@, final(b)@.next),
        forall|env: Env| #[trigger]
            final(s).st(final(b)@, env) == protocol::check_witness(
                gadget_machine(),
                old(s).st(old(b)@, env),
                pow_bits as nat,
                wire_inputs::optional(old(b)@, env, *witness, fallback),
            ).0,
        forall|env: Env| #[trigger]
            hold(final(b)@, env, final(checks)@) == (hold(old(b)@, env, old(checks)@)
                && protocol::check_witness(
                gadget_machine(),
                old(s).st(old(b)@, env),
                pow_bits as nat,
                wire_inputs::optional(old(b)@, env, *witness, fallback),
            ).1),
{
    let ghost first = b@;
    let ghost before = checks@;
    proof {
        netlist::lemma_ext_refl(first);
    }
    match witness {
        Some(w) => {
            let check = s.check_witness(b, pow_bits, w);
            checks.push(check);
            proof {
                assert forall|env: Env| true implies #[trigger] hold(b@, env, checks@) == (hold(
                    first,
                    env,
                    before,
                ) && netlist::value(b@, env, check as int)) by {
                    lemma_hold_push(b@, env, before, check);
                    assert(netlist::bits(b@, env, before) == netlist::bits(first, env, before));
                }
            }
        },
        None => {},
    }
}

/// Per sumcheck round: absorb the message, grind, draw the randomness. Each
/// grinding check is one more wire of `checks`.
pub(crate) fn sumcheck_rounds<T: CircuitTrait>(
    b: &mut T,
    s: &mut Sponge,
    rounds: &[SumcheckInputs],
    pow_bits: usize,
    checks: &mut Vec<usize>,
    Ghost(fallback): Ghost<Seq<SumcheckM>>,
) -> (folding: Vec<Elem>)
    requires
        old(b).inv(),
        old(s).wf(old(b)@.next),
        reference::narrow(pow_bits),
        wire_inputs::sumcheck_ok(rounds@, pow_bits > 0, old(b)@.next),
        netlist::below(old(checks)@, old(b)@.next),
        fallback.len() == rounds@.len(),
    ensures
        final(b).inv(),
        netlist::ext(old(b)@, final(b)@),
        final(s).wf(final(b)@.next),
        netlist::below(final(checks)@, final(b)@.next),
        folding@.len() == rounds@.len(),
        elems_ok(folding@, final(b)@.next),
        forall|env: Env| #[trigger]
            final(s).st(final(b)@, env) == protocol::sumcheck_draws(
                gadget_machine(),
                old(s).st(old(b)@, env),
                wire_inputs::sumcheck_messages(rounds@, old(b)@, env, fallback),
                pow_bits as nat,
            ).0,
        forall|env: Env| #[trigger]
            netlist::words(final(b)@, env, folding@) == protocol::sumcheck_draws(
                gadget_machine(),
                old(s).st(old(b)@, env),
                wire_inputs::sumcheck_messages(rounds@, old(b)@, env, fallback),
                pow_bits as nat,
            ).1,
        forall|env: Env| #[trigger]
            hold(final(b)@, env, final(checks)@) == (hold(old(b)@, env, old(checks)@)
                && protocol::sumcheck_draws(
                gadget_machine(),
                old(s).st(old(b)@, env),
                wire_inputs::sumcheck_messages(rounds@, old(b)@, env, fallback),
                pow_bits as nat,
            ).2),
{
    let ghost first = b@;
    let ghost s0 = *s;
    let ghost checks0 = checks@;
    let ghost m = gadget_machine();
    let ghost n = pow_bits as nat;
    let ghost msgs = |env: Env|
        wire_inputs::sumcheck_messages(rounds@, first, env, fallback);
    let ghost drawn = |env: Env, k: int|
        protocol::sumcheck_draws(m, s0.st(first, env), msgs(env).take(k), n);
    let mut folding: Vec<Elem> = Vec::new();
    proof {
        netlist::lemma_ext_refl(first);
        assert forall|env: Env| true implies #[trigger] msgs(env).take(0) =~= Seq::<
            SumcheckM,
        >::empty() by {}
        assert forall|env: Env| #[trigger]
            netlist::words(b@, env, folding@) == drawn(env, 0).1 by {
            assert(msgs(env).take(0) =~= Seq::<SumcheckM>::empty());
            assert(netlist::words(b@, env, folding@) =~= Seq::<Elt>::empty());
        }
    }
    while folding.len() < rounds.len()
        invariant
            b.inv(),
            m == gadget_machine(),
            n == pow_bits,
            msgs == (|env: Env| wire_inputs::sumcheck_messages(rounds@, first, env, fallback)),
            drawn == (|env: Env, k: int|
                protocol::sumcheck_draws(m, s0.st(first, env), msgs(env).take(k), n)),
            netlist::ext(first, b@),
            s.wf(b@.next),
            reference::narrow(pow_bits),
            wire_inputs::sumcheck_ok(rounds@, pow_bits > 0, first.next),
            netlist::below(checks@, b@.next),
            folding@.len() <= rounds@.len(),
            elems_ok(folding@, b@.next),
            forall|env: Env| #[trigger] s.st(b@, env) == drawn(env, folding@.len() as int).0,
            forall|env: Env| #[trigger]
                netlist::words(b@, env, folding@) == drawn(env, folding@.len() as int).1,
            forall|env: Env| #[trigger]
                hold(b@, env, checks@) == (hold(first, env, checks0) && drawn(
                    env,
                    folding@.len() as int,
                ).2),
        decreases rounds@.len() - folding@.len(),
    {
        let k = folding.len();
        let ghost c0 = b@;
        let ghost s1 = *s;
        let ghost ck0 = checks@;
        let ghost f0 = folding@;
        assert(rounds@[k as int].wf(pow_bits > 0, first.next));
        s.observe_elem(&rounds[k].c0);
        s.observe_elem(&rounds[k].c_inf);
        let ghost s2 = *s;
        assert(s2.wf(c0.next));
        grind(b, s, pow_bits, &rounds[k].witness, checks, Ghost(fallback[k as int].witness));
        let ghost c1 = b@;
        let ghost s3 = *s;
        let x = s.sample_elem(b);
        let ghost xw = x@;
        folding.push(x);
        proof {
            assert forall|env: Env| true implies {
                &&& #[trigger] s.st(b@, env) == drawn(env, k + 1).0
                &&& netlist::words(b@, env, folding@) == drawn(env, k + 1).1
                &&& hold(b@, env, checks@) == (hold(first, env, checks0) && drawn(env, k + 1).2)
            } by {
                let all = msgs(env);
                assert(all.take(k + 1).drop_last() =~= all.take(k as int));
                let r = all[k as int];
                assert(all.take(k + 1).last() == r);
                assert(s1.st(c0, env) == drawn(env, k as int).0);
                assert(netlist::words(c0, env, f0) == drawn(env, k as int).1);
                assert(hold(c0, env, ck0) == (hold(first, env, checks0) && drawn(
                    env,
                    k as int,
                ).2));
                assert(netlist::bits(c0, env, rounds@[k as int].c0@) == r.c0);
                assert(netlist::bits(c0, env, rounds@[k as int].c_inf@) == r.c_inf);
                assert(s2.st(c0, env) == protocol::absorb_elt(
                    m,
                    protocol::absorb_elt(m, s1.st(c0, env), r.c0),
                    r.c_inf,
                ));
                let (t, ground) = protocol::check_witness(m, s2.st(c0, env), n, r.witness);
                assert(wire_inputs::optional(
                    c0,
                    env,
                    rounds@[k as int].witness,
                    fallback[k as int].witness,
                ) == r.witness);
                assert(s3.st(c1, env) == t);
                assert(hold(c1, env, checks@) == (hold(c0, env, ck0) && ground));
                assert(netlist::bits(b@, env, checks@) == netlist::bits(c1, env, checks@));
                assert(netlist::words(b@, env, f0) == netlist::words(c0, env, f0));
                assert(netlist::words(b@, env, folding@) =~= netlist::words(b@, env, f0).push(
                    netlist::bits(b@, env, xw),
                ));
            }
            assert forall|env: Env| #[trigger]
                netlist::words(b@, env, folding@) == drawn(env, k + 1).1 by {
                assert(s.st(b@, env) == drawn(env, k + 1).0);
            }
            assert forall|env: Env| #[trigger]
                hold(b@, env, checks@) == (hold(first, env, checks0) && drawn(env, k + 1).2) by {
                assert(s.st(b@, env) == drawn(env, k + 1).0);
            }
        }
    }
    proof {
        assert forall|env: Env| true implies #[trigger] drawn(env, rounds@.len() as int)
            == protocol::sumcheck_draws(m, s0.st(first, env), msgs(env), n) by {
            assert(msgs(env).take(rounds@.len() as int) =~= msgs(env));
        }
    }
    folding
}

/// The out-of-domain points of a round.
fn ood_points<T: CircuitTrait>(b: &mut T, s: &mut Sponge, answers: &Vec<Elem>) -> (out: Vec<Elem>)
    requires
        old(b).inv(),
        old(s).wf(old(b)@.next),
        elems_ok(answers@, old(b)@.next),
    ensures
        final(b).inv(),
        netlist::ext(old(b)@, final(b)@),
        final(s).wf(final(b)@.next),
        out@.len() == answers@.len(),
        elems_ok(out@, final(b)@.next),
        forall|env: Env| #[trigger]
            final(s).st(final(b)@, env) == protocol::ood_draws(
                gadget_machine(),
                old(s).st(old(b)@, env),
                netlist::words(old(b)@, env, answers@),
            ).0,
        forall|env: Env| #[trigger]
            netlist::words(final(b)@, env, out@) == protocol::ood_draws(
                gadget_machine(),
                old(s).st(old(b)@, env),
                netlist::words(old(b)@, env, answers@),
            ).1,
{
    let ghost first = b@;
    let ghost s0 = *s;
    let ghost m = gadget_machine();
    let ghost drawn = |env: Env, k: int|
        protocol::ood_draws(
            m,
            s0.st(first, env),
            netlist::words(first, env, answers@).take(k),
        );
    let mut out: Vec<Elem> = Vec::new();
    proof {
        netlist::lemma_ext_refl(first);
        assert forall|env: Env| true implies {
            &&& #[trigger] s.st(b@, env) == drawn(env, 0).0
            &&& netlist::words(b@, env, out@) == drawn(env, 0).1
        } by {
            assert(netlist::words(first, env, answers@).take(0) =~= Seq::<Elt>::empty());
            assert(netlist::words(b@, env, out@) =~= Seq::<Elt>::empty());
        }
        assert forall|env: Env| #[trigger]
            netlist::words(b@, env, out@) == drawn(env, 0).1 by {
            assert(s.st(b@, env) == drawn(env, 0).0);
        }
    }
    while out.len() < answers.len()
        invariant
            b.inv(),
            m == gadget_machine(),
            drawn == (|env: Env, k: int|
                protocol::ood_draws(
                    m,
                    s0.st(first, env),
                    netlist::words(first, env, answers@).take(k),
                )),
            netlist::ext(first, b@),
            s.wf(b@.next),
            elems_ok(answers@, first.next),
            out@.len() <= answers@.len(),
            elems_ok(out@, b@.next),
            forall|env: Env| #[trigger] s.st(b@, env) == drawn(env, out@.len() as int).0,
            forall|env: Env| #[trigger]
                netlist::words(b@, env, out@) == drawn(env, out@.len() as int).1,
        decreases answers@.len() - out@.len(),
    {
        let k = out.len();
        let ghost c0 = b@;
        let ghost s1 = *s;
        let ghost out0 = out@;
        let x = s.sample_elem(b);
        let ghost s2 = *s;
        let ghost xw = x@;
        assert(elem_ok(answers@[k as int]@, first.next));
        s.observe_elem(&answers[k]);
        out.push(x);
        proof {
            assert(s.wf(b@.next));
            assert forall|env: Env| true implies {
                &&& #[trigger] s.st(b@, env) == drawn(env, k + 1).0
                &&& netlist::words(b@, env, out@) == drawn(env, k + 1).1
            } by {
                let all = netlist::words(first, env, answers@);
                assert(all.take(k + 1).drop_last() =~= all.take(k as int));
                assert(all.take(k + 1).last() == all[k as int]);
                assert(all[k as int] == netlist::bits(first, env, answers@[k as int]@));
                assert(s1.st(c0, env) == drawn(env, k as int).0);
                assert(netlist::words(c0, env, out0) == drawn(env, k as int).1);
                assert(s2.st(b@, env) == protocol::draw_elt(m, s1.st(c0, env)).0);
                assert(netlist::bits(b@, env, answers@[k as int]@) == all[k as int]);
                assert(netlist::words(b@, env, out0) == netlist::words(c0, env, out0));
                assert(netlist::words(b@, env, out@) =~= netlist::words(b@, env, out0).push(
                    netlist::bits(b@, env, xw),
                ));
            }
            assert forall|env: Env| #[trigger]
                netlist::words(b@, env, out@) == drawn(env, k + 1).1 by {
                assert(s.st(b@, env) == drawn(env, k + 1).0);
            }
        }
    }
    proof {
        assert forall|env: Env| true implies #[trigger] drawn(env, answers@.len() as int)
            == protocol::ood_draws(
            m,
            s0.st(first, env),
            netlist::words(first, env, answers@),
        ) by {
            let all = netlist::words(first, env, answers@);
            assert(all.take(answers@.len() as int) =~= all);
        }
    }
    out
}

/// The out-of-domain points of the commitment.
fn virtual_points<T: CircuitTrait>(
    b: &mut T,
    s: &mut Sponge,
    answers: &Vec<Elem>,
    seeds: &Vec<Vec<u8>>,
) -> (out: Vec<Elem>)
    requires
        old(b).inv(),
        old(s).wf(old(b)@.next),
        elems_ok(answers@, old(b)@.next),
        seeds@.len() == answers@.len(),
    ensures
        final(b).inv(),
        netlist::ext(old(b)@, final(b)@),
        final(s).wf(final(b)@.next),
        out@.len() == answers@.len(),
        elems_ok(out@, final(b)@.next),
        forall|env: Env| #[trigger]
            final(s).st(final(b)@, env) == protocol::virtual_draws(
                gadget_machine(),
                old(s).st(old(b)@, env),
                netlist::words(old(b)@, env, answers@),
                reference::byte_lists(seeds@),
            ).0,
        forall|env: Env| #[trigger]
            netlist::words(final(b)@, env, out@) == protocol::virtual_draws(
                gadget_machine(),
                old(s).st(old(b)@, env),
                netlist::words(old(b)@, env, answers@),
                reference::byte_lists(seeds@),
            ).1,
{
    let ghost first = b@;
    let ghost s0 = *s;
    let ghost m = gadget_machine();
    let ghost lists = reference::byte_lists(seeds@);
    let ghost drawn = |env: Env, k: int|
        protocol::virtual_draws(
            m,
            s0.st(first, env),
            netlist::words(first, env, answers@).take(k),
            lists,
        );
    let mut out: Vec<Elem> = Vec::new();
    proof {
        netlist::lemma_ext_refl(first);
        assert forall|env: Env| true implies {
            &&& #[trigger] s.st(b@, env) == drawn(env, 0).0
            &&& netlist::words(b@, env, out@) == drawn(env, 0).1
        } by {
            assert(netlist::words(first, env, answers@).take(0) =~= Seq::<Elt>::empty());
            assert(netlist::words(b@, env, out@) =~= Seq::<Elt>::empty());
        }
        assert forall|env: Env| #[trigger]
            netlist::words(b@, env, out@) == drawn(env, 0).1 by {
            assert(s.st(b@, env) == drawn(env, 0).0);
        }
    }
    while out.len() < answers.len()
        invariant
            b.inv(),
            m == gadget_machine(),
            lists == reference::byte_lists(seeds@),
            drawn == (|env: Env, k: int|
                protocol::virtual_draws(
                    m,
                    s0.st(first, env),
                    netlist::words(first, env, answers@).take(k),
                    lists,
                )),
            netlist::ext(first, b@),
            s.wf(b@.next),
            elems_ok(answers@, first.next),
            seeds@.len() == answers@.len(),
            out@.len() <= answers@.len(),
            elems_ok(out@, b@.next),
            forall|env: Env| #[trigger] s.st(b@, env) == drawn(env, out@.len() as int).0,
            forall|env: Env| #[trigger]
                netlist::words(b@, env, out@) == drawn(env, out@.len() as int).1,
        decreases answers@.len() - out@.len(),
    {
        let k = out.len();
        let ghost c0 = b@;
        let ghost s1 = *s;
        let ghost out0 = out@;
        s.observe_const(b, seeds[k].as_slice());
        let ghost s2 = *s;
        let x = s.sample_elem(b);
        let ghost s3 = *s;
        let ghost xw = x@;
        assert(elem_ok(answers@[k as int]@, first.next));
        s.observe_elem(&answers[k]);
        out.push(x);
        proof {
            assert(s.wf(b@.next));
            assert forall|env: Env| true implies {
                &&& #[trigger] s.st(b@, env) == drawn(env, k + 1).0
                &&& netlist::words(b@, env, out@) == drawn(env, k + 1).1
            } by {
                let all = netlist::words(first, env, answers@);
                assert(all.take(k + 1).drop_last() =~= all.take(k as int));
                assert(all.take(k + 1).last() == all[k as int]);
                assert(all[k as int] == netlist::bits(first, env, answers@[k as int]@));
                assert(s1.st(c0, env) == drawn(env, k as int).0);
                assert(netlist::words(c0, env, out0) == drawn(env, k as int).1);
                assert(s2.st(c0, env) == protocol::absorb_all(
                    m,
                    s1.st(c0, env),
                    lists[k as int],
                ));
                assert(s3.st(b@, env) == protocol::draw_elt(m, s2.st(c0, env)).0);
                assert(netlist::bits(b@, env, answers@[k as int]@) == all[k as int]);
                assert(netlist::words(b@, env, out0) == netlist::words(c0, env, out0));
                assert(netlist::words(b@, env, out@) =~= netlist::words(b@, env, out0).push(
                    netlist::bits(b@, env, xw),
                ));
            }
            assert forall|env: Env| #[trigger]
                netlist::words(b@, env, out@) == drawn(env, k + 1).1 by {
                assert(s.st(b@, env) == drawn(env, k + 1).0);
            }
        }
    }
    proof {
        assert forall|env: Env| true implies #[trigger] drawn(env, answers@.len() as int)
            == protocol::virtual_draws(
            m,
            s0.st(first, env),
            netlist::words(first, env, answers@),
            lists,
        ) by {
            let all = netlist::words(first, env, answers@);
            assert(all.take(answers@.len() as int) =~= all);
        }
    }
    out
}

/// The points of the claims, zero where they are given.
fn claim_points<T: CircuitTrait>(
    b: &mut T,
    s: &mut Sponge,
    openings: &Vec<Vec<Elem>>,
    seeds: &Vec<Vec<u8>>,
    given: bool,
) -> (out: Vec<Elem>)
    requires
        old(b).inv(),
        old(s).wf(old(b)@.next),
        grids_ok(openings@, old(b)@.next),
        seeds@.len() == openings@.len(),
    ensures
        final(b).inv(),
        netlist::ext(old(b)@, final(b)@),
        final(s).wf(final(b)@.next),
        out@.len() == openings@.len(),
        elems_ok(out@, final(b)@.next),
        forall|env: Env| #[trigger]
            final(s).st(final(b)@, env) == protocol::claim_draws(
                gadget_machine(),
                old(s).st(old(b)@, env),
                grids(old(b)@, env, openings@),
                reference::byte_lists(seeds@),
                given,
            ).0,
        forall|env: Env| #[trigger]
            netlist::words(final(b)@, env, out@) == protocol::claim_draws(
                gadget_machine(),
                old(s).st(old(b)@, env),
                grids(old(b)@, env, openings@),
                reference::byte_lists(seeds@),
                given,
            ).1,
{
    let ghost first = b@;
    let ghost s0 = *s;
    let ghost m = gadget_machine();
    let ghost lists = reference::byte_lists(seeds@);
    let ghost drawn = |env: Env, k: int|
        protocol::claim_draws(
            m,
            s0.st(first, env),
            grids(first, env, openings@).take(k),
            lists,
            given,
        );
    let mut out: Vec<Elem> = Vec::new();
    proof {
        netlist::lemma_ext_refl(first);
        assert forall|env: Env| true implies {
            &&& #[trigger] s.st(b@, env) == drawn(env, 0).0
            &&& netlist::words(b@, env, out@) == drawn(env, 0).1
        } by {
            assert(grids(first, env, openings@).take(0) =~= Seq::<Seq<Elt>>::empty());
            assert(netlist::words(b@, env, out@) =~= Seq::<Elt>::empty());
        }
        assert forall|env: Env| #[trigger]
            netlist::words(b@, env, out@) == drawn(env, 0).1 by {
            assert(s.st(b@, env) == drawn(env, 0).0);
        }
    }
    while out.len() < openings.len()
        invariant
            b.inv(),
            m == gadget_machine(),
            lists == reference::byte_lists(seeds@),
            drawn == (|env: Env, k: int|
                protocol::claim_draws(
                    m,
                    s0.st(first, env),
                    grids(first, env, openings@).take(k),
                    lists,
                    given,
                )),
            netlist::ext(first, b@),
            s.wf(b@.next),
            grids_ok(openings@, first.next),
            seeds@.len() == openings@.len(),
            out@.len() <= openings@.len(),
            elems_ok(out@, b@.next),
            forall|env: Env| #[trigger] s.st(b@, env) == drawn(env, out@.len() as int).0,
            forall|env: Env| #[trigger]
                netlist::words(b@, env, out@) == drawn(env, out@.len() as int).1,
        decreases openings@.len() - out@.len(),
    {
        let k = out.len();
        let ghost c0 = b@;
        let ghost s1 = *s;
        let ghost out0 = out@;
        proof {
            netlist::lemma_ext_refl(c0);
        }
        s.observe_const(b, seeds[k].as_slice());
        let ghost s2 = *s;
        let x = if given {
            wires::zero_elem(b)
        } else {
            s.sample_elem(b)
        };
        let ghost s3 = *s;
        let ghost xw = x@;
        assert(elems_ok(openings@[k as int]@, first.next));
        assert(elems_ok(openings@[k as int]@, b@.next));
        s.observe_elems(openings[k].as_slice());
        out.push(x);
        proof {
            assert(s.wf(b@.next));
            assert forall|env: Env| true implies {
                &&& #[trigger] s.st(b@, env) == drawn(env, k + 1).0
                &&& netlist::words(b@, env, out@) == drawn(env, k + 1).1
            } by {
                let all = grids(first, env, openings@);
                assert(all.take(k + 1).drop_last() =~= all.take(k as int));
                assert(all.take(k + 1).last() == all[k as int]);
                assert(all[k as int] == netlist::words(first, env, openings@[k as int]@));
                assert(s1.st(c0, env) == drawn(env, k as int).0);
                assert(netlist::words(c0, env, out0) == drawn(env, k as int).1);
                assert(s2.st(c0, env) == protocol::absorb_all(
                    m,
                    s1.st(c0, env),
                    lists[k as int],
                ));
                let (t, v) = if given {
                    (s2.st(c0, env), field::zero128())
                } else {
                    protocol::draw_elt(m, s2.st(c0, env))
                };
                assert(s3.st(b@, env) == t);
                assert(netlist::bits(b@, env, xw) == v);
                assert(netlist::words(b@, env, openings@[k as int]@) == all[k as int]);
                assert(netlist::words(b@, env, out0) == netlist::words(c0, env, out0));
                assert(netlist::words(b@, env, out@) =~= netlist::words(b@, env, out0).push(
                    netlist::bits(b@, env, xw),
                ));
            }
            assert forall|env: Env| #[trigger]
                netlist::words(b@, env, out@) == drawn(env, k + 1).1 by {
                assert(s.st(b@, env) == drawn(env, k + 1).0);
            }
        }
    }
    proof {
        assert forall|env: Env| true implies #[trigger] drawn(env, openings@.len() as int)
            == protocol::claim_draws(
            m,
            s0.st(first, env),
            grids(first, env, openings@),
            lists,
            given,
        ) by {
            let all = grids(first, env, openings@);
            assert(all.take(openings@.len() as int) =~= all);
        }
    }
    out
}

// ---------------------------------------------------------------------------
// A round.
// ---------------------------------------------------------------------------

/// What a round draws, on wires.
pub struct RoundWires {
    pub ood_points: Vec<Elem>,
    /// Per query, the index's bits, bit 0 first (constant wires for the
    /// stratum).
    pub queries: Vec<Vec<usize>>,
    pub combination: Elem,
    pub folding: Vec<Elem>,
}

impl RoundWires {
    pub open spec fn wf(self, rc: RoundConfig, ood: nat, folding: nat, n: nat) -> bool {
        &&& self.ood_points@.len() == ood
        &&& elems_ok(self.ood_points@, n)
        &&& self.queries@.len() == protocol::query_count(
            rc.index_width as nat,
            rc.num_queries as nat,
        )
        &&& netlist::all_below(self.queries@, rc.index_width as nat, n)
        &&& elem_ok(self.combination@, n)
        &&& self.folding@.len() == folding
        &&& elems_ok(self.folding@, n)
    }

    pub open spec fn draws(self, c: Netlist, env: Env) -> RoundDraws {
        RoundDraws {
            ood_points: netlist::words(c, env, self.ood_points@),
            queries: positions(c, env, self.queries@),
            combination: netlist::bits(c, env, self.combination@),
            folding: netlist::words(c, env, self.folding@),
        }
    }
}

pub proof fn lemma_round_wires_ext(
    r: RoundWires,
    rc: RoundConfig,
    ood: nat,
    folding: nat,
    a: Netlist,
    b: Netlist,
)
    requires
        netlist::ext(a, b),
        r.wf(rc, ood, folding, a.next),
    ensures
        r.wf(rc, ood, folding, b.next),
        forall|env: Env| #[trigger] r.draws(b, env) == r.draws(a, env),
{
    assert forall|env: Env| #[trigger] r.draws(b, env) == r.draws(a, env) by {
        lemma_positions_ext(a, b, env, r.queries@, rc.index_width as nat);
    }
}

/// One round of the transcript.
#[verifier::rlimit(30)]
fn round<T: CircuitTrait>(
    b: &mut T,
    s: &mut Sponge,
    rc: &RoundConfig,
    ri: &RoundInputs,
    seed_sumcheck: &Vec<u8>,
    checks: &mut Vec<usize>,
    Ghost(fallback): Ghost<RoundM>,
) -> (r: RoundWires)
    requires
        old(b).inv(),
        old(s).wf(old(b)@.next),
        netlist::below(old(checks)@, old(b)@.next),
        reference::narrow(rc.pow_bits),
        reference::narrow(rc.index_width),
        reference::narrow(rc.folding_pow_bits),
        ri.root@.len() % 8 == 0,
        netlist::below(ri.root@, old(b)@.next),
        elems_ok(ri.ood_answers@, old(b)@.next),
        wire_inputs::optional_ok(ri.pow_witness, rc.pow_bits > 0, old(b)@.next),
        wire_inputs::sumcheck_ok(ri.sumcheck@, rc.folding_pow_bits > 0, old(b)@.next),
        fallback.sumcheck.len() == ri.sumcheck@.len(),
        fallback.seed_sumcheck == seed_sumcheck@,
    ensures
        final(b).inv(),
        netlist::ext(old(b)@, final(b)@),
        final(s).wf(final(b)@.next),
        netlist::below(final(checks)@, final(b)@.next),
        r.wf(*rc, ri.ood_answers@.len(), ri.sumcheck@.len(), final(b)@.next),
        forall|env: Env| #[trigger]
            final(s).st(final(b)@, env) == protocol::round_draws(
                gadget_machine(),
                old(s).st(old(b)@, env),
                *rc,
                ri.messages(old(b)@, env, fallback),
            ).0,
        forall|env: Env| #[trigger]
            r.draws(final(b)@, env) == protocol::round_draws(
                gadget_machine(),
                old(s).st(old(b)@, env),
                *rc,
                ri.messages(old(b)@, env, fallback),
            ).1,
        forall|env: Env| #[trigger]
            hold(final(b)@, env, final(checks)@) == (hold(old(b)@, env, old(checks)@)
                && protocol::round_draws(
                gadget_machine(),
                old(s).st(old(b)@, env),
                *rc,
                ri.messages(old(b)@, env, fallback),
            ).2),
{
    let ghost m = gadget_machine();
    let ghost b0 = b@;
    let ghost s0 = *s;
    let ghost k0 = checks@;
    s.observe(ri.root.as_slice());
    let ghost s1 = *s;
    assert(s1.wf(b0.next));
    let ood_points = ood_points(b, s, &ri.ood_answers);
    let ghost b2 = b@;
    let ghost s2 = *s;
    grind(b, s, rc.pow_bits, &ri.pow_witness, checks, Ghost(fallback.pow_witness));
    let ghost b3 = b@;
    let ghost s3 = *s;
    let ghost k3 = checks@;
    let queries = stir_queries(b, s, rc.index_width, rc.num_queries);
    let ghost b4 = b@;
    let ghost s4 = *s;
    let combination = s.sample_elem(b);
    let ghost b5 = b@;
    let ghost s5 = *s;
    s.observe_const(b, seed_sumcheck.as_slice());
    let ghost s6 = *s;
    proof {
        wire_inputs::lemma_sumcheck_ok(ri.sumcheck@, rc.folding_pow_bits > 0, b0.next, b5.next);
    }
    let folding = sumcheck_rounds(
        b,
        s,
        ri.sumcheck.as_slice(),
        rc.folding_pow_bits,
        checks,
        Ghost(fallback.sumcheck),
    );
    let r = RoundWires { ood_points, queries, combination, folding };
    proof {
        assert forall|env: Env| true implies {
            let d = protocol::round_draws(
                m,
                s0.st(b0, env),
                *rc,
                ri.messages(b0, env, fallback),
            );
            &&& #[trigger] s.st(b@, env) == d.0
            &&& r.draws(b@, env) == d.1
            &&& hold(b@, env, checks@) == (hold(b0, env, k0) && d.2)
        } by {
            let msg = ri.messages(b0, env, fallback);
            assert(s1.st(b0, env) == protocol::absorb_all(m, s0.st(b0, env), msg.cap));
            let (t1, ood) = protocol::ood_draws(m, s1.st(b0, env), msg.ood_answers);
            assert(s2.st(b2, env) == t1);
            assert(netlist::words(b2, env, ood_points@) == ood);
            assert(wire_inputs::optional(b2, env, ri.pow_witness, fallback.pow_witness)
                == msg.pow_witness);
            let (t2, ground) = protocol::check_witness(
                m,
                s2.st(b2, env),
                rc.pow_bits as nat,
                msg.pow_witness,
            );
            assert(s3.st(b3, env) == t2);
            assert(netlist::bits(b2, env, k0) == netlist::bits(b0, env, k0));
            assert(hold(b3, env, k3) == (hold(b0, env, k0) && ground));
            let (t3, qs) = protocol::stir_queries(
                m,
                s3.st(b3, env),
                rc.index_width as nat,
                rc.num_queries as nat,
            );
            assert(s4.st(b4, env) == t3);
            assert(positions(b4, env, queries@) == qs);
            assert(s5.st(b5, env) == protocol::draw_elt(m, s4.st(b4, env)).0);
            assert(netlist::bits(b5, env, combination@) == protocol::draw_elt(
                m,
                s4.st(b4, env),
            ).1);
            assert(s6.st(b5, env) == protocol::absorb_all(
                m,
                s5.st(b5, env),
                msg.seed_sumcheck,
            ));
            wire_inputs::lemma_sumcheck_ext(
                b0,
                b5,
                env,
                ri.sumcheck@,
                rc.folding_pow_bits > 0,
                fallback.sumcheck,
            );
            assert(netlist::bits(b5, env, k3) == netlist::bits(b3, env, k3));
            lemma_positions_ext(b4, b@, env, queries@, rc.index_width as nat);
            assert(netlist::words(b@, env, ood_points@) == ood);
        }
        assert forall|env: Env| #[trigger]
            r.draws(b@, env) == protocol::round_draws(
                m,
                s0.st(b0, env),
                *rc,
                ri.messages(b0, env, fallback),
            ).1 by {
            assert(s.st(b@, env) == protocol::round_draws(
                m,
                s0.st(b0, env),
                *rc,
                ri.messages(b0, env, fallback),
            ).0);
        }
        assert forall|env: Env| #[trigger]
            hold(b@, env, checks@) == (hold(b0, env, k0) && protocol::round_draws(
                m,
                s0.st(b0, env),
                *rc,
                ri.messages(b0, env, fallback),
            ).2) by {
            assert(s.st(b@, env) == protocol::round_draws(
                m,
                s0.st(b0, env),
                *rc,
                ri.messages(b0, env, fallback),
            ).0);
        }
    }
    r
}

/// The rounds of the transcript.
#[verifier::rlimit(30)]
fn rounds<T: CircuitTrait>(
    b: &mut T,
    s: &mut Sponge,
    cfg: &Config,
    d: &Data,
    inputs: &Inputs,
    checks: &mut Vec<usize>,
) -> (out: Vec<RoundWires>)
    requires
        old(b).inv(),
        old(s).wf(old(b)@.next),
        netlist::below(old(checks)@, old(b)@.next),
        reference::transcribable(*cfg, *d),
        inputs.wf(*cfg, *d, old(b)@.next),
    ensures
        final(b).inv(),
        netlist::ext(old(b)@, final(b)@),
        final(s).wf(final(b)@.next),
        netlist::below(final(checks)@, final(b)@.next),
        out@.len() == d.rounds@.len(),
        round_wires_ok(out@, *cfg, *d, final(b)@.next),
        forall|env: Env| #[trigger]
            final(s).st(final(b)@, env) == protocol::rounds_draws(
                gadget_machine(),
                old(s).st(old(b)@, env),
                cfg.rounds@,
                inputs.messages(old(b)@, env, d.messages()).rounds,
            ).0,
        forall|env: Env| #[trigger]
            rounds_drawn(final(b)@, env, out@) == protocol::rounds_draws(
                gadget_machine(),
                old(s).st(old(b)@, env),
                cfg.rounds@,
                inputs.messages(old(b)@, env, d.messages()).rounds,
            ).1,
        forall|env: Env| #[trigger]
            hold(final(b)@, env, final(checks)@) == (hold(old(b)@, env, old(checks)@)
                && protocol::rounds_draws(
                gadget_machine(),
                old(s).st(old(b)@, env),
                cfg.rounds@,
                inputs.messages(old(b)@, env, d.messages()).rounds,
            ).2),
{
    let ghost m = gadget_machine();
    let ghost first = b@;
    let ghost s0 = *s;
    let ghost checks0 = checks@;
    let ghost data = d.messages();
    let ghost msgs = |env: Env| inputs.messages(first, env, data).rounds;
    let ghost drawn = |env: Env, k: int|
        protocol::rounds_draws(m, s0.st(first, env), cfg.rounds@, msgs(env).take(k));
    let mut out: Vec<RoundWires> = Vec::new();
    proof {
        netlist::lemma_ext_refl(first);
        assert forall|env: Env| true implies {
            &&& #[trigger] s.st(b@, env) == drawn(env, 0).0
            &&& rounds_drawn(b@, env, out@) == drawn(env, 0).1
            &&& hold(b@, env, checks@) == (hold(first, env, checks0) && drawn(env, 0).2)
        } by {
            assert(msgs(env).take(0) =~= Seq::<RoundM>::empty());
            assert(rounds_drawn(b@, env, out@) =~= Seq::<RoundDraws>::empty());
        }
        assert forall|env: Env| #[trigger] rounds_drawn(b@, env, out@) == drawn(env, 0).1 by {
            assert(s.st(b@, env) == drawn(env, 0).0);
        }
        assert forall|env: Env| #[trigger]
            hold(b@, env, checks@) == (hold(first, env, checks0) && drawn(env, 0).2) by {
            assert(s.st(b@, env) == drawn(env, 0).0);
        }
    }
    while out.len() < d.rounds.len()
        invariant
            b.inv(),
            m == gadget_machine(),
            data == d.messages(),
            msgs == (|env: Env| inputs.messages(first, env, data).rounds),
            drawn == (|env: Env, k: int|
                protocol::rounds_draws(m, s0.st(first, env), cfg.rounds@, msgs(env).take(k))),
            netlist::ext(first, b@),
            s.wf(b@.next),
            netlist::below(checks@, b@.next),
            reference::transcribable(*cfg, *d),
            inputs.wf(*cfg, *d, first.next),
            out@.len() <= d.rounds@.len(),
            round_wires_ok(out@, *cfg, *d, b@.next),
            forall|env: Env| #[trigger] s.st(b@, env) == drawn(env, out@.len() as int).0,
            forall|env: Env| #[trigger]
                rounds_drawn(b@, env, out@) == drawn(env, out@.len() as int).1,
            forall|env: Env| #[trigger]
                hold(b@, env, checks@) == (hold(first, env, checks0) && drawn(
                    env,
                    out@.len() as int,
                ).2),
        decreases d.rounds@.len() - out@.len(),
    {
        let k = out.len();
        let ghost c0 = b@;
        let ghost s1 = *s;
        let ghost ck0 = checks@;
        let ghost out0 = out@;
        let ghost ri = inputs.rounds@[k as int];
        proof {
            assert(wire_inputs::round_ok(ri, *cfg, *d, k as int, first.next));
            assert(reference::round_transcribable(cfg.rounds@[k as int], d.rounds@[k as int]));
            wire_inputs::lemma_round_ok(ri, *cfg, *d, k as int, first.next, c0.next);
        }
        let r = round(
            b,
            s,
            &cfg.rounds[k],
            &inputs.rounds[k],
            &d.rounds[k].seed_sumcheck,
            checks,
            Ghost(data.rounds[k as int]),
        );
        out.push(r);
        proof {
            assert forall|i: int| 0 <= i < out@.len() implies #[trigger] round_wires_at(
                out@,
                *cfg,
                *d,
                i,
                b@.next,
            ) by {
                if i < k {
                    assert(out@[i] == out0[i]);
                    assert(round_wires_at(out0, *cfg, *d, i, c0.next));
                    lemma_round_wires_ext(
                        out0[i],
                        cfg.rounds@[i],
                        d.rounds@[i].ood_answers@.len(),
                        d.rounds@[i].sumcheck@.len(),
                        c0,
                        b@,
                    );
                }
            }
            assert forall|env: Env| true implies {
                &&& #[trigger] s.st(b@, env) == drawn(env, k + 1).0
                &&& rounds_drawn(b@, env, out@) == drawn(env, k + 1).1
                &&& hold(b@, env, checks@) == (hold(first, env, checks0) && drawn(env, k + 1).2)
            } by {
                let all = msgs(env);
                assert(all.take(k + 1).drop_last() =~= all.take(k as int));
                assert(all.take(k + 1).last() == all[k as int]);
                assert(s1.st(c0, env) == drawn(env, k as int).0);
                assert(rounds_drawn(c0, env, out0) == drawn(env, k as int).1);
                assert(hold(c0, env, ck0) == (hold(first, env, checks0) && drawn(
                    env,
                    k as int,
                ).2));
                wire_inputs::lemma_round_ext(first, c0, env, ri, *cfg, *d, k as int);
                assert(ri.messages(c0, env, data.rounds[k as int]) == all[k as int]);
                let t = protocol::round_draws(
                    m,
                    s1.st(c0, env),
                    cfg.rounds@[k as int],
                    all[k as int],
                );
                assert(s.st(b@, env) == t.0);
                assert(r.draws(b@, env) == t.1);
                assert(hold(b@, env, checks@) == (hold(c0, env, ck0) && t.2));
                lemma_rounds_drawn_ext(out0, *cfg, *d, c0, b@, env);
                assert(rounds_drawn(b@, env, out@) =~= rounds_drawn(b@, env, out0).push(
                    r.draws(b@, env),
                ));
            }
            assert forall|env: Env| #[trigger]
                rounds_drawn(b@, env, out@) == drawn(env, k + 1).1 by {
                assert(s.st(b@, env) == drawn(env, k + 1).0);
            }
            assert forall|env: Env| #[trigger]
                hold(b@, env, checks@) == (hold(first, env, checks0) && drawn(env, k + 1).2) by {
                assert(s.st(b@, env) == drawn(env, k + 1).0);
            }
        }
    }
    proof {
        assert forall|env: Env| true implies #[trigger] drawn(env, d.rounds@.len() as int)
            == protocol::rounds_draws(m, s0.st(first, env), cfg.rounds@, msgs(env)) by {
            assert(msgs(env).take(d.rounds@.len() as int) =~= msgs(env));
        }
    }
    out
}

/// What some rounds draw.
pub open spec fn rounds_drawn(c: Netlist, env: Env, rounds: Seq<RoundWires>) -> Seq<RoundDraws> {
    Seq::new(rounds.len(), |i: int| rounds[i].draws(c, env))
}

/// Round `i`'s wires have the data's shape.
pub open spec fn round_wires_at(
    rounds: Seq<RoundWires>,
    cfg: Config,
    d: Data,
    i: int,
    n: nat,
) -> bool {
    rounds[i].wf(
        cfg.rounds@[i],
        d.rounds@[i].ood_answers@.len(),
        d.rounds@[i].sumcheck@.len(),
        n,
    )
}

pub open spec fn round_wires_ok(rounds: Seq<RoundWires>, cfg: Config, d: Data, n: nat) -> bool {
    forall|i: int| 0 <= i < rounds.len() ==> #[trigger] round_wires_at(rounds, cfg, d, i, n)
}

pub proof fn lemma_rounds_drawn_ext(
    rounds: Seq<RoundWires>,
    cfg: Config,
    d: Data,
    a: Netlist,
    b: Netlist,
    env: Env,
)
    requires
        netlist::ext(a, b),
        round_wires_ok(rounds, cfg, d, a.next),
    ensures
        round_wires_ok(rounds, cfg, d, b.next),
        rounds_drawn(b, env, rounds) == rounds_drawn(a, env, rounds),
{
    assert forall|i: int| 0 <= i < rounds.len() implies #[trigger] round_wires_at(
        rounds,
        cfg,
        d,
        i,
        b.next,
    ) && rounds_drawn(b, env, rounds)[i] == rounds_drawn(a, env, rounds)[i] by {
        assert(round_wires_at(rounds, cfg, d, i, a.next));
        lemma_round_wires_ext(
            rounds[i],
            cfg.rounds@[i],
            d.rounds@[i].ood_answers@.len(),
            d.rounds@[i].sumcheck@.len(),
            a,
            b,
        );
        assert(rounds[i].draws(b, env) == rounds[i].draws(a, env));
    }
    assert forall|i: int| 0 <= i < rounds.len() implies rounds_drawn(b, env, rounds)[i]
        == rounds_drawn(a, env, rounds)[i] by {
        assert(round_wires_at(rounds, cfg, d, i, b.next));
    }
    assert(rounds_drawn(b, env, rounds) =~= rounds_drawn(a, env, rounds));
}

// ---------------------------------------------------------------------------
// The whole transcript.
// ---------------------------------------------------------------------------

/// What the transcript draws, on wires.
pub struct TranscriptWires {
    pub initial_ood_points: Vec<Elem>,
    pub opening_points: Vec<Elem>,
    pub alpha: Elem,
    pub initial_folding: Vec<Elem>,
    pub rounds: Vec<RoundWires>,
    pub final_queries: Vec<Vec<usize>>,
    pub final_folding: Vec<Elem>,
    /// One wire per grinding check.
    pub pow_checks: Vec<usize>,
}

impl TranscriptWires {
    pub open spec fn wf(self, cfg: Config, d: Data, n: nat) -> bool {
        &&& self.initial_ood_points@.len() == d.initial_ood_answers@.len()
        &&& elems_ok(self.initial_ood_points@, n)
        &&& self.opening_points@.len() == d.openings@.len()
        &&& elems_ok(self.opening_points@, n)
        &&& elem_ok(self.alpha@, n)
        &&& self.initial_folding@.len() == d.initial_sumcheck@.len()
        &&& elems_ok(self.initial_folding@, n)
        &&& self.rounds@.len() == d.rounds@.len()
        &&& round_wires_ok(self.rounds@, cfg, d, n)
        &&& self.final_queries@.len() == protocol::query_count(
            cfg.final_index_width as nat,
            cfg.final_queries as nat,
        )
        &&& netlist::all_below(self.final_queries@, cfg.final_index_width as nat, n)
        &&& self.final_folding@.len() == d.final_sumcheck@.len()
        &&& elems_ok(self.final_folding@, n)
        &&& netlist::below(self.pow_checks@, n)
    }

    pub open spec fn draws(self, c: Netlist, env: Env) -> Draws {
        Draws {
            initial_ood_points: netlist::words(c, env, self.initial_ood_points@),
            opening_points: netlist::words(c, env, self.opening_points@),
            alpha: netlist::bits(c, env, self.alpha@),
            initial_folding: netlist::words(c, env, self.initial_folding@),
            rounds: rounds_drawn(c, env, self.rounds@),
            final_queries: positions(c, env, self.final_queries@),
            final_folding: netlist::words(c, env, self.final_folding@),
            pow_ok: hold(c, env, self.pow_checks@),
        }
    }
}

pub proof fn lemma_transcript_wires_ext(
    t: TranscriptWires,
    cfg: Config,
    d: Data,
    a: Netlist,
    b: Netlist,
)
    requires
        netlist::ext(a, b),
        t.wf(cfg, d, a.next),
    ensures
        t.wf(cfg, d, b.next),
        forall|env: Env| #[trigger] t.draws(b, env) == t.draws(a, env),
{
    let some: Env = |i: int| false;
    lemma_rounds_drawn_ext(t.rounds@, cfg, d, a, b, some);
    assert forall|env: Env| #[trigger] t.draws(b, env) == t.draws(a, env) by {
        lemma_positions_ext(a, b, env, t.final_queries@, cfg.final_index_width as nat);
        lemma_rounds_drawn_ext(t.rounds@, cfg, d, a, b, env);
    }
}

/// The transcript after the commitment.
#[verifier::rlimit(60)]
pub(crate) fn transcript<T: CircuitTrait>(
    b: &mut T,
    s: &mut Sponge,
    inputs: &Inputs,
    cfg: &Config,
    d: &Data,
) -> (t: TranscriptWires)
    requires
        old(b).inv(),
        old(s).wf(old(b)@.next),
        reference::transcribable(*cfg, *d),
        inputs.wf(*cfg, *d, old(b)@.next),
    ensures
        final(b).inv(),
        netlist::ext(old(b)@, final(b)@),
        final(s).wf(final(b)@.next),
        t.wf(*cfg, *d, final(b)@.next),
        forall|env: Env| #[trigger]
            final(s).st(final(b)@, env) == protocol::transcript(
                gadget_machine(),
                old(s).st(old(b)@, env),
                *cfg,
                inputs.messages(old(b)@, env, d.messages()),
            ).0,
        forall|env: Env| #[trigger]
            t.draws(final(b)@, env) == protocol::transcript(
                gadget_machine(),
                old(s).st(old(b)@, env),
                *cfg,
                inputs.messages(old(b)@, env, d.messages()),
            ).1,
{
    let ghost m = gadget_machine();
    let ghost data = d.messages();
    let ghost b0 = b@;
    let ghost s0 = *s;
    let initial_ood_points = virtual_points(b, s, &inputs.initial_ood_answers, &d.seed_virtual);
    let ghost b1 = b@;
    let ghost s1 = *s;
    proof {
        wire_inputs::lemma_grids_ok(inputs.openings@, b0.next, b1.next);
    }
    let opening_points = claim_points(b, s, &inputs.openings, &d.seed_claim, cfg.given_points);
    let ghost b2 = b@;
    let ghost s2 = *s;
    s.observe_const(b, d.seed_whir_batching.as_slice());
    let ghost s3 = *s;
    let alpha = s.sample_elem(b);
    let ghost b4 = b@;
    let ghost s4 = *s;
    s.observe_const(b, d.seed_initial_sumcheck.as_slice());
    let ghost s5 = *s;
    let mut pow_checks: Vec<usize> = Vec::new();
    let ghost k5 = pow_checks@;
    proof {
        wire_inputs::lemma_sumcheck_ok(
            inputs.initial_sumcheck@,
            cfg.initial_folding_pow_bits > 0,
            b0.next,
            b4.next,
        );
    }
    let initial_folding = sumcheck_rounds(
        b,
        s,
        inputs.initial_sumcheck.as_slice(),
        cfg.initial_folding_pow_bits,
        &mut pow_checks,
        Ghost(data.initial_sumcheck),
    );
    let ghost b6 = b@;
    let ghost s6 = *s;
    let ghost k6 = pow_checks@;
    proof {
        wire_inputs::lemma_inputs_ok(*inputs, *cfg, *d, b0.next, b6.next);
    }
    let rounds = rounds(b, s, cfg, d, inputs, &mut pow_checks);
    let ghost b7 = b@;
    let ghost s7 = *s;
    let ghost k7 = pow_checks@;
    s.observe_elems(inputs.final_poly.as_slice());
    let ghost s8 = *s;
    assert(s8.wf(b7.next));
    grind(
        b,
        s,
        cfg.final_pow_bits,
        &inputs.final_pow_witness,
        &mut pow_checks,
        Ghost(data.final_pow_witness),
    );
    let ghost b9 = b@;
    let ghost s9 = *s;
    let ghost k9 = pow_checks@;
    let final_queries = stir_queries(b, s, cfg.final_index_width, cfg.final_queries);
    let ghost b10 = b@;
    let ghost s10 = *s;
    s.observe_const(b, d.seed_final_sumcheck.as_slice());
    let ghost s11 = *s;
    proof {
        wire_inputs::lemma_sumcheck_ok(
            inputs.final_sumcheck@,
            cfg.final_folding_pow_bits > 0,
            b0.next,
            b10.next,
        );
    }
    let final_folding = sumcheck_rounds(
        b,
        s,
        inputs.final_sumcheck.as_slice(),
        cfg.final_folding_pow_bits,
        &mut pow_checks,
        Ghost(data.final_sumcheck),
    );
    let t = TranscriptWires {
        initial_ood_points,
        opening_points,
        alpha,
        initial_folding,
        rounds,
        final_queries,
        final_folding,
        pow_checks,
    };
    proof {
        let some: Env = |i: int| false;
        lemma_rounds_drawn_ext(rounds@, *cfg, *d, b7, b@, some);
        assert forall|env: Env| true implies {
            let r = protocol::transcript(
                m,
                s0.st(b0, env),
                *cfg,
                inputs.messages(b0, env, data),
            );
            &&& #[trigger] s.st(b@, env) == r.0
            &&& t.draws(b@, env) == r.1
        } by {
            let p = inputs.messages(b0, env, data);
            let (t1, virt) = protocol::virtual_draws(
                m,
                s0.st(b0, env),
                p.initial_ood_answers,
                p.seed_virtual,
            );
            assert(s1.st(b1, env) == t1);
            assert(netlist::words(b1, env, initial_ood_points@) == virt);
            assert(netlist::words(b@, env, initial_ood_points@) == virt);
            wire_inputs::lemma_grids_ext(b0, b1, env, inputs.openings@);
            let (t2, claims) = protocol::claim_draws(
                m,
                s1.st(b1, env),
                p.openings,
                p.seed_claim,
                cfg.given_points,
            );
            assert(s2.st(b2, env) == t2);
            assert(netlist::words(b2, env, opening_points@) == claims);
            assert(netlist::words(b@, env, opening_points@) == claims);
            assert(s3.st(b2, env) == protocol::absorb_all(
                m,
                s2.st(b2, env),
                p.seed_whir_batching,
            ));
            assert(s4.st(b4, env) == protocol::draw_elt(m, s3.st(b2, env)).0);
            assert(netlist::bits(b4, env, alpha@) == protocol::draw_elt(m, s3.st(b2, env)).1);
            assert(netlist::bits(b@, env, alpha@) == netlist::bits(b4, env, alpha@));
            assert(s5.st(b4, env) == protocol::absorb_all(
                m,
                s4.st(b4, env),
                p.seed_initial_sumcheck,
            ));
            wire_inputs::lemma_sumcheck_ext(
                b0,
                b4,
                env,
                inputs.initial_sumcheck@,
                cfg.initial_folding_pow_bits > 0,
                data.initial_sumcheck,
            );
            let (t6, f6, ok1) = protocol::sumcheck_draws(
                m,
                s5.st(b4, env),
                p.initial_sumcheck,
                cfg.initial_folding_pow_bits as nat,
            );
            assert(s6.st(b6, env) == t6);
            assert(netlist::words(b6, env, initial_folding@) == f6);
            assert(netlist::words(b@, env, initial_folding@) == f6);
            assert(hold(b4, env, k5));
            assert(hold(b6, env, k6) == ok1);
            wire_inputs::lemma_inputs_ext(b0, b6, env, *inputs, *cfg, *d, data);
            let (t7, r7, ok2) = protocol::rounds_draws(m, s6.st(b6, env), cfg.rounds@, p.rounds);
            assert(s7.st(b7, env) == t7);
            assert(rounds_drawn(b7, env, rounds@) == r7);
            lemma_rounds_drawn_ext(rounds@, *cfg, *d, b7, b@, env);
            assert(hold(b7, env, k7) == (ok1 && ok2));
            assert(netlist::words(b7, env, inputs.final_poly@) == p.final_poly);
            assert(s8.st(b7, env) == protocol::absorb_elts(m, s7.st(b7, env), p.final_poly));
            assert(wire_inputs::optional(
                b7,
                env,
                inputs.final_pow_witness,
                data.final_pow_witness,
            ) == p.final_pow_witness);
            let (t9, ground) = protocol::check_witness(
                m,
                s8.st(b7, env),
                cfg.final_pow_bits as nat,
                p.final_pow_witness,
            );
            assert(s9.st(b9, env) == t9);
            assert(hold(b9, env, k9) == (ok1 && ok2 && ground));
            let (t10, qs) = protocol::stir_queries(
                m,
                s9.st(b9, env),
                cfg.final_index_width as nat,
                cfg.final_queries as nat,
            );
            assert(s10.st(b10, env) == t10);
            assert(positions(b10, env, final_queries@) == qs);
            lemma_positions_ext(b10, b@, env, final_queries@, cfg.final_index_width as nat);
            assert(s11.st(b10, env) == protocol::absorb_all(
                m,
                s10.st(b10, env),
                p.seed_final_sumcheck,
            ));
            wire_inputs::lemma_sumcheck_ext(
                b0,
                b10,
                env,
                inputs.final_sumcheck@,
                cfg.final_folding_pow_bits > 0,
                data.final_sumcheck,
            );
            assert(netlist::bits(b10, env, k9) == netlist::bits(b9, env, k9));
            let (t12, f12, ok3) = protocol::sumcheck_draws(
                m,
                s11.st(b10, env),
                p.final_sumcheck,
                cfg.final_folding_pow_bits as nat,
            );
            assert(s.st(b@, env) == t12);
            assert(netlist::words(b@, env, final_folding@) == f12);
            assert(hold(b@, env, t.pow_checks@) == (ok1 && ok2 && ground && ok3));
        }
        assert forall|env: Env| #[trigger]
            t.draws(b@, env) == protocol::transcript(
                m,
                s0.st(b0, env),
                *cfg,
                inputs.messages(b0, env, data),
            ).1 by {
            assert(s.st(b@, env) == protocol::transcript(
                m,
                s0.st(b0, env),
                *cfg,
                inputs.messages(b0, env, data),
            ).0);
        }
    }
    t
}

} // verus!

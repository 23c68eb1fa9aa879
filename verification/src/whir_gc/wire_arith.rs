//! The verifier's arithmetic on wires: the same functions as on elements.
use super::bytes;
use super::field;
use super::field::{Elt, F};
use super::gates::CircuitTrait;
use super::netlist;
use super::netlist::{Env, Netlist};
use super::protocol;
use super::wires;
use super::wires::{copy_elem, elem_ok, elems_ok, one_elem, square, Elem};
use vstd::arithmetic::power2::pow2;
use vstd::prelude::*;

verus! {

broadcast use netlist::group_netlist;

/// `[y^(2^(m-1)), ..., y^2, y]`.
pub(crate) fn expand_univariate<T: CircuitTrait>(b: &mut T, y: &Elem, m: usize) -> (out: Vec<Elem>)
    requires
        old(b).inv(),
        elem_ok(y@, old(b)@.next),
    ensures
        final(b).inv(),
        netlist::ext(old(b)@, final(b)@),
        out@.len() == m,
        elems_ok(out@, final(b)@.next),
        forall|env: Env| #[trigger]
            netlist::words(final(b)@, env, out@) == protocol::expand_univariate(
                netlist::bits(old(b)@, env, y@),
                m as nat,
            ),
{
    let ghost first = b@;
    let mut up: Vec<Elem> = Vec::new();
    let mut cur = copy_elem(y);
    proof {
        netlist::lemma_ext_refl(first);
    }
    while up.len() < m
        invariant
            b.inv(),
            netlist::ext(first, b@),
            up@.len() <= m,
            elems_ok(up@, b@.next),
            elem_ok(cur@, b@.next),
            forall|env: Env| #[trigger]
                netlist::bits(b@, env, cur@) == protocol::squared(
                    netlist::bits(first, env, y@),
                    up@.len(),
                ),
            forall|env: Env, i: int|
                0 <= i < up@.len() ==> #[trigger] netlist::bits(b@, env, up@[i]@)
                    == protocol::squared(netlist::bits(first, env, y@), i as nat),
        decreases m - up@.len(),
    {
        let ghost c = b@;
        let ghost up0 = up@;
        let ghost cur0 = cur@;
        up.push(copy_elem(&cur));
        cur = square(b, &cur);
        proof {
            assert forall|env: Env, i: int| 0 <= i < up@.len() implies #[trigger] netlist::bits(
                b@,
                env,
                up@[i]@,
            ) == protocol::squared(netlist::bits(first, env, y@), i as nat) by {
                if i < up0.len() {
                    assert(up@[i] == up0[i]);
                    assert(up0[i]@.len() == 128 && netlist::below(up0[i]@, c.next));
                    assert(netlist::bits(c, env, up0[i]@) == protocol::squared(
                        netlist::bits(first, env, y@),
                        i as nat,
                    ));
                } else {
                    assert(netlist::bits(c, env, cur0) == netlist::bits(b@, env, cur0));
                }
            }
            assert forall|env: Env| #[trigger]
                netlist::bits(b@, env, cur@) == protocol::squared(
                    netlist::bits(first, env, y@),
                    up@.len(),
                ) by {
                assert(netlist::bits(c, env, cur0) == protocol::squared(
                    netlist::bits(first, env, y@),
                    up0.len(),
                ));
            }
        }
    }
    let out = wires::reversed(up.as_slice());
    proof {
        assert(elems_ok(out@, b@.next));
        assert forall|env: Env| #[trigger]
            netlist::words(b@, env, out@) == protocol::expand_univariate(
                netlist::bits(first, env, y@),
                m as nat,
            ) by {
            let want = protocol::expand_univariate(netlist::bits(first, env, y@), m as nat);
            let ups = netlist::words(b@, env, up@);
            assert forall|i: int| 0 <= i < m implies netlist::words(b@, env, out@)[i]
                == want[i] by {
                assert(netlist::bits(b@, env, up@[m - 1 - i]@) == protocol::squared(
                    netlist::bits(first, env, y@),
                    (m - 1 - i) as nat,
                ));
                assert(protocol::reversed(ups)[i] == ups[m - 1 - i]);
            }
            assert(netlist::words(b@, env, out@) =~= want);
        }
    }
    out
}

/// `prod (p_i + r_i + 1)`.
pub(crate) fn eq_eval<T: CircuitTrait>(b: &mut T, p: &[Elem], r: &[Elem]) -> (v: Elem)
    requires
        old(b).inv(),
        p@.len() == r@.len(),
        elems_ok(p@, old(b)@.next),
        elems_ok(r@, old(b)@.next),
    ensures
        final(b).inv(),
        netlist::ext(old(b)@, final(b)@),
        elem_ok(v@, final(b)@.next),
        forall|env: Env| #[trigger]
            netlist::bits(final(b)@, env, v@) == protocol::eq_eval(
                netlist::words(old(b)@, env, p@),
                netlist::words(old(b)@, env, r@),
            ),
{
    let ghost first = b@;
    let one = one_elem(b);
    let mut acc = one_elem(b);
    let mut i: usize = 0;
    proof {
        netlist::lemma_ext_refl(first);
        assert forall|env: Env| #[trigger] netlist::bits(b@, env, acc@) == protocol::eq_eval(
            netlist::words(first, env, p@).take(0),
            netlist::words(first, env, r@).take(0),
        ) by {}
    }
    while i < p.len()
        invariant
            b.inv(),
            i <= p@.len() == r@.len(),
            elems_ok(p@, first.next),
            elems_ok(r@, first.next),
            netlist::ext(first, b@),
            elem_ok(one@, first.next),
            elem_ok(acc@, b@.next),
            forall|env: Env| #[trigger] netlist::bits(first, env, one@) == field::one128(),
            forall|env: Env| #[trigger]
                netlist::bits(b@, env, acc@) == protocol::eq_eval(
                    netlist::words(first, env, p@).take(i as int),
                    netlist::words(first, env, r@).take(i as int),
                ),
        decreases p@.len() - i,
    {
        let ghost c0 = b@;
        let ghost acc0 = acc@;
        proof {
            assert(elem_ok(p@[i as int]@, c0.next));
            assert(elem_ok(r@[i as int]@, c0.next));
        }
        let s = crate::whir_gc::wires::add(b, &p[i], &r[i]);
        let ghost c1 = b@;
        let term = crate::whir_gc::wires::add(b, &s, &one);
        let ghost c2 = b@;
        acc = crate::whir_gc::wires::mul(b, &acc, &term);
        proof {
            assert forall|env: Env| #[trigger]
                netlist::bits(b@, env, acc@) == protocol::eq_eval(
                    netlist::words(first, env, p@).take(i + 1),
                    netlist::words(first, env, r@).take(i + 1),
                ) by {
                let ps = netlist::words(first, env, p@);
                let rs = netlist::words(first, env, r@);
                assert(ps.take(i + 1).drop_last() =~= ps.take(i as int));
                assert(rs.take(i + 1).drop_last() =~= rs.take(i as int));
                assert(netlist::bits(c0, env, p@[i as int]@) == ps[i as int]);
                assert(netlist::bits(c0, env, r@[i as int]@) == rs[i as int]);
                assert(netlist::bits(c1, env, one@) == field::one128());
                assert(netlist::bits(c2, env, acc0) == netlist::bits(c0, env, acc0));
                assert(netlist::bits(c1, env, s@) == field::plus(ps[i as int], rs[i as int]));
                assert(netlist::bits(c2, env, term@) == field::plus(
                    field::plus(ps[i as int], rs[i as int]),
                    field::one128(),
                ));
            }
        }
        i = i + 1;
    }
    proof {
        assert forall|env: Env| #[trigger] netlist::bits(b@, env, acc@) == protocol::eq_eval(
            netlist::words(first, env, p@),
            netlist::words(first, env, r@),
        ) by {
            let ps = netlist::words(first, env, p@);
            let rs = netlist::words(first, env, r@);
            assert(ps.take(p@.len() as int) =~= ps);
            assert(rs.take(p@.len() as int) =~= rs);
        }
    }
    acc
}

/// `prod (r_i (p_i - 1) + 1)`, the weight of a direct point.
pub(crate) fn select_point_weight<T: CircuitTrait>(b: &mut T, p: &[Elem], r: &[Elem]) -> (v: Elem)
    requires
        old(b).inv(),
        p@.len() == r@.len(),
        elems_ok(p@, old(b)@.next),
        elems_ok(r@, old(b)@.next),
    ensures
        final(b).inv(),
        netlist::ext(old(b)@, final(b)@),
        elem_ok(v@, final(b)@.next),
        forall|env: Env| #[trigger]
            netlist::bits(final(b)@, env, v@) == protocol::select_point_weight(
                netlist::words(old(b)@, env, p@),
                netlist::words(old(b)@, env, r@),
            ),
{
    let ghost first = b@;
    let one = one_elem(b);
    let mut acc = one_elem(b);
    let mut i: usize = 0;
    proof {
        netlist::lemma_ext_refl(first);
        assert forall|env: Env| #[trigger]
            netlist::bits(b@, env, acc@) == protocol::select_point_weight(
                netlist::words(first, env, p@).take(0),
                netlist::words(first, env, r@).take(0),
            ) by {}
    }
    while i < p.len()
        invariant
            b.inv(),
            i <= p@.len() == r@.len(),
            elems_ok(p@, first.next),
            elems_ok(r@, first.next),
            netlist::ext(first, b@),
            elem_ok(one@, first.next),
            elem_ok(acc@, b@.next),
            forall|env: Env| #[trigger] netlist::bits(first, env, one@) == field::one128(),
            forall|env: Env| #[trigger]
                netlist::bits(b@, env, acc@) == protocol::select_point_weight(
                    netlist::words(first, env, p@).take(i as int),
                    netlist::words(first, env, r@).take(i as int),
                ),
        decreases p@.len() - i,
    {
        let ghost c0 = b@;
        let ghost acc0 = acc@;
        proof {
            assert(elem_ok(p@[i as int]@, c0.next));
            assert(elem_ok(r@[i as int]@, c0.next));
        }
        let pm1 = crate::whir_gc::wires::add(b, &p[i], &one);
        let ghost c1 = b@;
        let prod = crate::whir_gc::wires::mul(b, &r[i], &pm1);
        let ghost c2 = b@;
        let term = crate::whir_gc::wires::add(b, &prod, &one);
        let ghost c3 = b@;
        acc = crate::whir_gc::wires::mul(b, &acc, &term);
        proof {
            assert forall|env: Env| #[trigger]
                netlist::bits(b@, env, acc@) == protocol::select_point_weight(
                    netlist::words(first, env, p@).take(i + 1),
                    netlist::words(first, env, r@).take(i + 1),
                ) by {
                let ps = netlist::words(first, env, p@);
                let rs = netlist::words(first, env, r@);
                assert(ps.take(i + 1).drop_last() =~= ps.take(i as int));
                assert(rs.take(i + 1).drop_last() =~= rs.take(i as int));
                assert(netlist::bits(c0, env, p@[i as int]@) == ps[i as int]);
                assert(netlist::bits(c0, env, one@) == field::one128());
                assert(netlist::bits(c1, env, pm1@) == field::plus(
                    ps[i as int],
                    field::one128(),
                ));
                assert(netlist::bits(c1, env, r@[i as int]@) == rs[i as int]);
                assert(netlist::bits(c2, env, prod@) == field::times(
                    rs[i as int],
                    field::plus(ps[i as int], field::one128()),
                ));
                assert(netlist::bits(c2, env, one@) == field::one128());
                assert(netlist::bits(c3, env, acc0) == netlist::bits(c0, env, acc0));
            }
        }
        i = i + 1;
    }
    proof {
        assert forall|env: Env| #[trigger]
            netlist::bits(b@, env, acc@) == protocol::select_point_weight(
                netlist::words(first, env, p@),
                netlist::words(first, env, r@),
            ) by {
            let ps = netlist::words(first, env, p@);
            let rs = netlist::words(first, env, r@);
            assert(ps.take(p@.len() as int) =~= ps);
            assert(rs.take(p@.len() as int) =~= rs);
        }
    }
    acc
}

/// `extrapolate_01inf(c0, claim - c0, c_inf, r)`.
pub(crate) fn sumcheck_round<T: CircuitTrait>(
    b: &mut T,
    claim: &Elem,
    c0: &Elem,
    c_inf: &Elem,
    r: &Elem,
) -> (v: Elem)
    requires
        old(b).inv(),
        elem_ok(claim@, old(b)@.next),
        elem_ok(c0@, old(b)@.next),
        elem_ok(c_inf@, old(b)@.next),
        elem_ok(r@, old(b)@.next),
    ensures
        final(b).inv(),
        netlist::ext(old(b)@, final(b)@),
        elem_ok(v@, final(b)@.next),
        forall|env: Env| #[trigger]
            netlist::bits(final(b)@, env, v@) == protocol::sumcheck_round(
                netlist::bits(old(b)@, env, claim@),
                netlist::bits(old(b)@, env, c0@),
                netlist::bits(old(b)@, env, c_inf@),
                netlist::bits(old(b)@, env, r@),
            ),
{
    let ghost n0 = b@;
    let one = one_elem(b);
    let one_minus_r = crate::whir_gc::wires::add(b, &one, r);
    let ghost n1 = b@;
    let e1 = crate::whir_gc::wires::add(b, claim, c0);
    let ghost n2 = b@;
    let r_minus_1 = crate::whir_gc::wires::add(b, r, &one);
    let ghost n3 = b@;
    let r_r1 = crate::whir_gc::wires::mul(b, r, &r_minus_1);
    let ghost n4 = b@;
    let t0 = crate::whir_gc::wires::mul(b, c0, &one_minus_r);
    let ghost n5 = b@;
    let t1 = crate::whir_gc::wires::mul(b, &e1, r);
    let ghost n6 = b@;
    let t2 = crate::whir_gc::wires::mul(b, c_inf, &r_r1);
    let ghost n7 = b@;
    let s = crate::whir_gc::wires::add(b, &t0, &t1);
    let ghost n8 = b@;
    let v = crate::whir_gc::wires::add(b, &s, &t2);
    proof {
        assert forall|env: Env| #[trigger]
            netlist::bits(b@, env, v@) == protocol::sumcheck_round(
                netlist::bits(n0, env, claim@),
                netlist::bits(n0, env, c0@),
                netlist::bits(n0, env, c_inf@),
                netlist::bits(n0, env, r@),
            ) by {
            let vr = netlist::bits(n0, env, r@);
            let v0 = netlist::bits(n0, env, c0@);
            let vi = netlist::bits(n0, env, c_inf@);
            let vc = netlist::bits(n0, env, claim@);
            let u = field::one128();
            assert(netlist::bits(n1, env, one_minus_r@) == field::plus(u, vr));
            assert(netlist::bits(n1, env, claim@) == vc);
            assert(netlist::bits(n1, env, c0@) == v0);
            assert(netlist::bits(n2, env, e1@) == field::plus(vc, v0));
            assert(netlist::bits(n2, env, r@) == vr);
            assert(netlist::bits(n2, env, one@) == u);
            assert(netlist::bits(n3, env, r_minus_1@) == field::plus(vr, u));
            assert(netlist::bits(n3, env, r@) == vr);
            assert(netlist::bits(n4, env, r_r1@) == field::times(vr, field::plus(vr, u)));
            assert(netlist::bits(n4, env, c0@) == v0);
            assert(netlist::bits(n4, env, one_minus_r@) == field::plus(u, vr));
            assert(netlist::bits(n5, env, t0@) == field::times(v0, field::plus(u, vr)));
            assert(netlist::bits(n5, env, e1@) == field::plus(vc, v0));
            assert(netlist::bits(n5, env, r@) == vr);
            assert(netlist::bits(n6, env, t1@) == field::times(field::plus(vc, v0), vr));
            assert(netlist::bits(n6, env, c_inf@) == vi);
            assert(netlist::bits(n6, env, r_r1@) == field::times(vr, field::plus(vr, u)));
            assert(netlist::bits(n7, env, t0@) == netlist::bits(n5, env, t0@));
            assert(netlist::bits(n7, env, t1@) == netlist::bits(n6, env, t1@));
            assert(netlist::bits(n8, env, t2@) == netlist::bits(n7, env, t2@));
        }
    }
    v
}

/// A multilinear table bound at its last variable: `a + x (b - a)`.
fn bind<T: CircuitTrait>(b: &mut T, evals: &Vec<Elem>, x: &Elem) -> (next: Vec<Elem>)
    requires
        old(b).inv(),
        elems_ok(evals@, old(b)@.next),
        elem_ok(x@, old(b)@.next),
    ensures
        final(b).inv(),
        netlist::ext(old(b)@, final(b)@),
        next@.len() == evals@.len() / 2,
        elems_ok(next@, final(b)@.next),
        forall|env: Env| #[trigger]
            netlist::words(final(b)@, env, next@) == protocol::bind(
                netlist::words(old(b)@, env, evals@),
                netlist::bits(old(b)@, env, x@),
            ),
{
    let ghost first = b@;
    let total = evals.len();
    let half = total / 2;
    let mut next: Vec<Elem> = Vec::new();
    proof {
        netlist::lemma_ext_refl(first);
    }
    while next.len() < half
        invariant
            b.inv(),
            total == evals@.len(),
            half == total / 2,
            next@.len() <= half,
            elems_ok(evals@, first.next),
            elem_ok(x@, first.next),
            netlist::ext(first, b@),
            elems_ok(next@, b@.next),
            forall|env: Env, j: int|
                0 <= j < next@.len() ==> #[trigger] netlist::bits(b@, env, next@[j]@)
                    == protocol::bind(
                    netlist::words(first, env, evals@),
                    netlist::bits(first, env, x@),
                )[j],
        decreases half - next@.len(),
    {
        let j = next.len();
        let ghost c0 = b@;
        let ghost next0 = next@;
        proof {
            assert(elem_ok(evals@[2 * j]@, c0.next));
            assert(elem_ok(evals@[2 * j + 1]@, c0.next));
        }
        let d = crate::whir_gc::wires::add(b, &evals[2 * j + 1], &evals[2 * j]);
        let ghost c1 = b@;
        let xd = crate::whir_gc::wires::mul(b, x, &d);
        let ghost c2 = b@;
        let v = crate::whir_gc::wires::add(b, &evals[2 * j], &xd);
        next.push(v);
        proof {
            assert forall|env: Env, i: int| 0 <= i < next@.len() implies #[trigger] netlist::bits(
                b@,
                env,
                next@[i]@,
            ) == protocol::bind(
                netlist::words(first, env, evals@),
                netlist::bits(first, env, x@),
            )[i] by {
                let es = netlist::words(first, env, evals@);
                let vx = netlist::bits(first, env, x@);
                if i < j {
                    assert(next@[i] == next0[i]);
                    assert(next0[i]@.len() == 128 && netlist::below(next0[i]@, c0.next));
                    assert(netlist::bits(c0, env, next0[i]@) == protocol::bind(es, vx)[i]);
                } else {
                    assert(netlist::bits(c0, env, evals@[2 * j + 1]@) == es[2 * j + 1]);
                    assert(netlist::bits(c0, env, evals@[2 * j]@) == es[2 * j as int]);
                    assert(netlist::bits(c1, env, x@) == vx);
                    assert(netlist::bits(c2, env, evals@[2 * j]@) == es[2 * j as int]);
                }
            }
        }
    }
    proof {
        assert forall|env: Env| #[trigger]
            netlist::words(b@, env, next@) == protocol::bind(
                netlist::words(first, env, evals@),
                netlist::bits(first, env, x@),
            ) by {
            let want = protocol::bind(
                netlist::words(first, env, evals@),
                netlist::bits(first, env, x@),
            );
            assert forall|i: int| 0 <= i < half implies netlist::words(b@, env, next@)[i]
                == want[i] by {
                assert(netlist::bits(b@, env, next@[i]@) == want[i]);
            }
            assert(netlist::words(b@, env, next@) =~= want);
        }
    }
    next
}

/// The multilinear extension: fold the last variable first.
pub(crate) fn eval_multilinear<T: CircuitTrait>(b: &mut T, evals: &[Elem], point: &[Elem]) -> (v:
    Elem)
    requires
        old(b).inv(),
        evals@.len() == pow2(point@.len()),
        elems_ok(evals@, old(b)@.next),
        elems_ok(point@, old(b)@.next),
    ensures
        final(b).inv(),
        netlist::ext(old(b)@, final(b)@),
        elem_ok(v@, final(b)@.next),
        forall|env: Env| #[trigger]
            netlist::bits(final(b)@, env, v@) == protocol::eval_multilinear(
                netlist::words(old(b)@, env, evals@),
                netlist::words(old(b)@, env, point@),
            ),
{
    let ghost first = b@;
    let mut cur = wires::copy_elems(evals);
    let mut n: usize = point.len();
    proof {
        netlist::lemma_ext_refl(first);
        assert(elems_ok(cur@, first.next));
        assert forall|env: Env| #[trigger]
            netlist::words(b@, env, cur@) == netlist::words(first, env, evals@) by {}
        assert forall|env: Env|
            protocol::eval_multilinear(
                #[trigger] netlist::words(b@, env, cur@),
                netlist::words(first, env, point@).take(n as int),
            ) == protocol::eval_multilinear(
                netlist::words(first, env, evals@),
                netlist::words(first, env, point@),
            ) by {
            let pt = netlist::words(first, env, point@);
            assert(pt.take(n as int) =~= pt);
        }
    }
    while n > 0
        invariant
            b.inv(),
            n <= point@.len(),
            elems_ok(point@, first.next),
            netlist::ext(first, b@),
            cur@.len() == pow2(n as nat),
            elems_ok(cur@, b@.next),
            forall|env: Env|
                protocol::eval_multilinear(
                    #[trigger] netlist::words(b@, env, cur@),
                    netlist::words(first, env, point@).take(n as int),
                ) == protocol::eval_multilinear(
                    netlist::words(first, env, evals@),
                    netlist::words(first, env, point@),
                ),
        decreases n,
    {
        let ghost c0 = b@;
        let ghost cur0 = cur@;
        proof {
            assert(elem_ok(point@[n - 1]@, c0.next));
            vstd::arithmetic::power2::lemma_pow2_unfold(n as nat);
        }
        cur = bind(b, &cur, &point[n - 1]);
        proof {
            assert forall|env: Env|
                protocol::eval_multilinear(
                    #[trigger] netlist::words(b@, env, cur@),
                    netlist::words(first, env, point@).take(n - 1),
                ) == protocol::eval_multilinear(
                    netlist::words(first, env, evals@),
                    netlist::words(first, env, point@),
                ) by {
                let pt = netlist::words(first, env, point@);
                assert(pt.take(n as int).drop_last() =~= pt.take(n - 1));
                assert(pt.take(n as int).last() == pt[n - 1]);
                assert(netlist::bits(c0, env, point@[n - 1]@) == pt[n - 1]);
                assert(protocol::eval_multilinear(
                    netlist::words(c0, env, cur0),
                    pt.take(n as int),
                ) == protocol::eval_multilinear(netlist::words(first, env, evals@), pt));
            }
        }
        n = n - 1;
    }
    proof {
        vstd::arithmetic::power2::lemma2_to64();
    }
    let v = copy_elem(&cur[0]);
    proof {
        assert(elem_ok(cur@[0]@, b@.next));
        assert forall|env: Env| #[trigger]
            netlist::bits(b@, env, v@) == protocol::eval_multilinear(
                netlist::words(first, env, evals@),
                netlist::words(first, env, point@),
            ) by {
            let ws = netlist::words(b@, env, cur@);
            assert(ws[0] == netlist::bits(b@, env, cur@[0]@));
            assert(protocol::eval_multilinear(
                ws,
                netlist::words(first, env, point@).take(0),
            ) == ws[0]);
        }
    }
    v
}

/// A coefficient table bound at its last variable: `a + b c`.
fn bind_coefficients<T: CircuitTrait>(b: &mut T, coeffs: &Vec<Elem>, x: &Elem) -> (next: Vec<Elem>)
    requires
        old(b).inv(),
        elems_ok(coeffs@, old(b)@.next),
        elem_ok(x@, old(b)@.next),
    ensures
        final(b).inv(),
        netlist::ext(old(b)@, final(b)@),
        next@.len() == coeffs@.len() / 2,
        elems_ok(next@, final(b)@.next),
        forall|env: Env| #[trigger]
            netlist::words(final(b)@, env, next@) == protocol::bind_coefficients(
                netlist::words(old(b)@, env, coeffs@),
                netlist::bits(old(b)@, env, x@),
            ),
{
    let ghost first = b@;
    let total = coeffs.len();
    let half = total / 2;
    let mut next: Vec<Elem> = Vec::new();
    proof {
        netlist::lemma_ext_refl(first);
    }
    while next.len() < half
        invariant
            b.inv(),
            total == coeffs@.len(),
            half == total / 2,
            next@.len() <= half,
            elems_ok(coeffs@, first.next),
            elem_ok(x@, first.next),
            netlist::ext(first, b@),
            elems_ok(next@, b@.next),
            forall|env: Env, j: int|
                0 <= j < next@.len() ==> #[trigger] netlist::bits(b@, env, next@[j]@)
                    == protocol::bind_coefficients(
                    netlist::words(first, env, coeffs@),
                    netlist::bits(first, env, x@),
                )[j],
        decreases half - next@.len(),
    {
        let j = next.len();
        let ghost c0 = b@;
        let ghost next0 = next@;
        proof {
            assert(elem_ok(coeffs@[2 * j]@, c0.next));
            assert(elem_ok(coeffs@[2 * j + 1]@, c0.next));
        }
        let t = crate::whir_gc::wires::mul(b, &coeffs[2 * j + 1], x);
        let ghost c1 = b@;
        let v = crate::whir_gc::wires::add(b, &coeffs[2 * j], &t);
        next.push(v);
        proof {
            assert forall|env: Env, i: int| 0 <= i < next@.len() implies #[trigger] netlist::bits(
                b@,
                env,
                next@[i]@,
            ) == protocol::bind_coefficients(
                netlist::words(first, env, coeffs@),
                netlist::bits(first, env, x@),
            )[i] by {
                let es = netlist::words(first, env, coeffs@);
                let vx = netlist::bits(first, env, x@);
                if i < j {
                    assert(next@[i] == next0[i]);
                    assert(next0[i]@.len() == 128 && netlist::below(next0[i]@, c0.next));
                    assert(netlist::bits(c0, env, next0[i]@) == protocol::bind_coefficients(
                        es,
                        vx,
                    )[i]);
                } else {
                    assert(netlist::bits(c0, env, coeffs@[2 * j + 1]@) == es[2 * j + 1]);
                    assert(netlist::bits(c0, env, x@) == vx);
                    assert(netlist::bits(c1, env, coeffs@[2 * j]@) == es[2 * j as int]);
                }
            }
        }
    }
    proof {
        assert forall|env: Env| #[trigger]
            netlist::words(b@, env, next@) == protocol::bind_coefficients(
                netlist::words(first, env, coeffs@),
                netlist::bits(first, env, x@),
            ) by {
            let want = protocol::bind_coefficients(
                netlist::words(first, env, coeffs@),
                netlist::bits(first, env, x@),
            );
            assert forall|i: int| 0 <= i < half implies netlist::words(b@, env, next@)[i]
                == want[i] by {
                assert(netlist::bits(b@, env, next@[i]@) == want[i]);
            }
            assert(netlist::words(b@, env, next@) =~= want);
        }
    }
    next
}

/// The coefficient table folded coordinate by coordinate.
pub(crate) fn eval_coefficients<T: CircuitTrait>(b: &mut T, coeffs: &[Elem], point: &[Elem]) -> (v:
    Elem)
    requires
        old(b).inv(),
        coeffs@.len() == pow2(point@.len()),
        elems_ok(coeffs@, old(b)@.next),
        elems_ok(point@, old(b)@.next),
    ensures
        final(b).inv(),
        netlist::ext(old(b)@, final(b)@),
        elem_ok(v@, final(b)@.next),
        forall|env: Env| #[trigger]
            netlist::bits(final(b)@, env, v@) == protocol::eval_coefficients(
                netlist::words(old(b)@, env, coeffs@),
                netlist::words(old(b)@, env, point@),
            ),
{
    let ghost first = b@;
    let mut cur = wires::copy_elems(coeffs);
    let mut n: usize = point.len();
    proof {
        netlist::lemma_ext_refl(first);
        assert(elems_ok(cur@, first.next));
        assert forall|env: Env|
            protocol::eval_coefficients(
                #[trigger] netlist::words(b@, env, cur@),
                netlist::words(first, env, point@).take(n as int),
            ) == protocol::eval_coefficients(
                netlist::words(first, env, coeffs@),
                netlist::words(first, env, point@),
            ) by {
            let pt = netlist::words(first, env, point@);
            assert(pt.take(n as int) =~= pt);
        }
    }
    while n > 0
        invariant
            b.inv(),
            n <= point@.len(),
            elems_ok(point@, first.next),
            netlist::ext(first, b@),
            cur@.len() == pow2(n as nat),
            elems_ok(cur@, b@.next),
            forall|env: Env|
                protocol::eval_coefficients(
                    #[trigger] netlist::words(b@, env, cur@),
                    netlist::words(first, env, point@).take(n as int),
                ) == protocol::eval_coefficients(
                    netlist::words(first, env, coeffs@),
                    netlist::words(first, env, point@),
                ),
        decreases n,
    {
        let ghost c0 = b@;
        let ghost cur0 = cur@;
        proof {
            assert(elem_ok(point@[n - 1]@, c0.next));
            vstd::arithmetic::power2::lemma_pow2_unfold(n as nat);
        }
        cur = bind_coefficients(b, &cur, &point[n - 1]);
        proof {
            assert forall|env: Env|
                protocol::eval_coefficients(
                    #[trigger] netlist::words(b@, env, cur@),
                    netlist::words(first, env, point@).take(n - 1),
                ) == protocol::eval_coefficients(
                    netlist::words(first, env, coeffs@),
                    netlist::words(first, env, point@),
                ) by {
                let pt = netlist::words(first, env, point@);
                assert(pt.take(n as int).drop_last() =~= pt.take(n - 1));
                assert(pt.take(n as int).last() == pt[n - 1]);
                assert(netlist::bits(c0, env, point@[n - 1]@) == pt[n - 1]);
                assert(protocol::eval_coefficients(
                    netlist::words(c0, env, cur0),
                    pt.take(n as int),
                ) == protocol::eval_coefficients(netlist::words(first, env, coeffs@), pt));
            }
        }
        n = n - 1;
    }
    proof {
        vstd::arithmetic::power2::lemma2_to64();
    }
    let v = copy_elem(&cur[0]);
    proof {
        assert(elem_ok(cur@[0]@, b@.next));
        assert forall|env: Env| #[trigger]
            netlist::bits(b@, env, v@) == protocol::eval_coefficients(
                netlist::words(first, env, coeffs@),
                netlist::words(first, env, point@),
            ) by {
            let ws = netlist::words(b@, env, cur@);
            assert(ws[0] == netlist::bits(b@, env, cur@[0]@));
            assert(protocol::eval_coefficients(
                ws,
                netlist::words(first, env, point@).take(0),
            ) == ws[0]);
        }
    }
    v
}

/// `claim + sum chi^(shift + i) e_i`.
pub(crate) fn combine_into<T: CircuitTrait>(
    b: &mut T,
    claim: &Elem,
    chi: &Elem,
    shift: usize,
    evals: &[Elem],
) -> (v: Elem)
    requires
        old(b).inv(),
        elem_ok(claim@, old(b)@.next),
        elem_ok(chi@, old(b)@.next),
        elems_ok(evals@, old(b)@.next),
    ensures
        final(b).inv(),
        netlist::ext(old(b)@, final(b)@),
        elem_ok(v@, final(b)@.next),
        forall|env: Env| #[trigger]
            netlist::bits(final(b)@, env, v@) == protocol::combine(
                netlist::bits(old(b)@, env, claim@),
                netlist::bits(old(b)@, env, chi@),
                shift as nat,
                netlist::words(old(b)@, env, evals@),
            ),
{
    let ghost first = b@;
    let mut power = one_elem(b);
    let mut s: usize = 0;
    proof {
        netlist::lemma_ext_refl(first);
    }
    while s < shift
        invariant
            b.inv(),
            s <= shift,
            netlist::ext(first, b@),
            elem_ok(chi@, first.next),
            elem_ok(power@, b@.next),
            forall|env: Env| #[trigger]
                netlist::bits(b@, env, power@) == field::power(
                    netlist::bits(first, env, chi@),
                    s as nat,
                ),
        decreases shift - s,
    {
        let ghost c0 = b@;
        let ghost p0 = power@;
        power = crate::whir_gc::wires::mul(b, &power, chi);
        proof {
            assert forall|env: Env| #[trigger]
                netlist::bits(b@, env, power@) == field::power(
                    netlist::bits(first, env, chi@),
                    (s + 1) as nat,
                ) by {
                assert(netlist::bits(c0, env, p0) == field::power(
                    netlist::bits(first, env, chi@),
                    s as nat,
                ));
                assert(netlist::bits(c0, env, chi@) == netlist::bits(first, env, chi@));
            }
        }
        s = s + 1;
    }
    let mut acc = copy_elem(claim);
    let mut i: usize = 0;
    proof {
        assert forall|env: Env| #[trigger]
            netlist::bits(b@, env, acc@) == protocol::combine(
                netlist::bits(first, env, claim@),
                netlist::bits(first, env, chi@),
                shift as nat,
                netlist::words(first, env, evals@).take(0),
            ) by {
            assert(netlist::bits(b@, env, claim@) == netlist::bits(first, env, claim@));
        }
    }
    while i < evals.len()
        invariant
            b.inv(),
            i <= evals@.len(),
            netlist::ext(first, b@),
            elem_ok(chi@, first.next),
            elems_ok(evals@, first.next),
            elem_ok(power@, b@.next),
            elem_ok(acc@, b@.next),
            forall|env: Env| #[trigger]
                netlist::bits(b@, env, power@) == field::power(
                    netlist::bits(first, env, chi@),
                    (shift + i) as nat,
                ),
            forall|env: Env| #[trigger]
                netlist::bits(b@, env, acc@) == protocol::combine(
                    netlist::bits(first, env, claim@),
                    netlist::bits(first, env, chi@),
                    shift as nat,
                    netlist::words(first, env, evals@).take(i as int),
                ),
        decreases evals@.len() - i,
    {
        let ghost c0 = b@;
        let ghost p0 = power@;
        let ghost a0 = acc@;
        assert(elem_ok(evals@[i as int]@, c0.next));
        let t = crate::whir_gc::wires::mul(b, &power, &evals[i]);
        let ghost c1 = b@;
        acc = crate::whir_gc::wires::add(b, &acc, &t);
        let ghost c2 = b@;
        power = crate::whir_gc::wires::mul(b, &power, chi);
        proof {
            assert forall|env: Env| #[trigger]
                netlist::bits(b@, env, power@) == field::power(
                    netlist::bits(first, env, chi@),
                    (shift + i + 1) as nat,
                ) by {
                assert(netlist::bits(c2, env, p0) == netlist::bits(c0, env, p0));
                assert(netlist::bits(c0, env, p0) == field::power(
                    netlist::bits(first, env, chi@),
                    (shift + i) as nat,
                ));
                assert(netlist::bits(c2, env, chi@) == netlist::bits(first, env, chi@));
            }
            assert forall|env: Env| #[trigger]
                netlist::bits(b@, env, acc@) == protocol::combine(
                    netlist::bits(first, env, claim@),
                    netlist::bits(first, env, chi@),
                    shift as nat,
                    netlist::words(first, env, evals@).take(i + 1),
                ) by {
                let es = netlist::words(first, env, evals@);
                assert(es.take(i + 1).drop_last() =~= es.take(i as int));
                assert(netlist::bits(c0, env, evals@[i as int]@) == es[i as int]);
                assert(netlist::bits(c0, env, p0) == field::power(
                    netlist::bits(first, env, chi@),
                    (shift + i) as nat,
                ));
                assert(netlist::bits(c1, env, a0) == netlist::bits(c0, env, a0));
                assert(netlist::bits(b@, env, acc@) == netlist::bits(c2, env, acc@));
            }
        }
        i = i + 1;
    }
    proof {
        assert forall|env: Env| #[trigger]
            netlist::bits(b@, env, acc@) == protocol::combine(
                netlist::bits(first, env, claim@),
                netlist::bits(first, env, chi@),
                shift as nat,
                netlist::words(first, env, evals@),
            ) by {
            let es = netlist::words(first, env, evals@);
            assert(es.take(evals@.len() as int) =~= es);
        }
    }
    acc
}

/// The Cantor-basis vector with the bits `s`, from basis vector `r` on.
pub open spec fn domain_bits(s: Seq<bool>, r: nat) -> Elt
    decreases s.len(),
{
    if s.len() == 0 {
        field::zero128()
    } else {
        let higher = domain_bits(s.skip(1), r + 1);
        if s[0] {
            field::plus(field::bits_of(field::cantor(r as int), 128), higher)
        } else {
            higher
        }
    }
}

/// The domain point of an index is that of its bits.
pub proof fn lemma_domain_bits(s: Seq<bool>, r: nat)
    ensures
        domain_bits(s, r) == protocol::domain_point_from(bytes::nat_of(s), r),
        domain_bits(s, r).len() == 128,
    decreases s.len(),
{
    if s.len() > 0 {
        lemma_domain_bits(s.skip(1), r + 1);
        bytes::lemma_nat_of_first(s);
        let n = bytes::nat_of(s.skip(1));
        if s[0] {
            assert(bytes::nat_of(s) / 2 == n);
            assert(bytes::nat_of(s) % 2 == 1);
        } else {
            assert(bytes::nat_of(s) / 2 == n);
            assert(bytes::nat_of(s) % 2 == 0);
        }
    }
}

/// A constant gated by a wire, bit by bit.
fn gated<T: CircuitTrait>(b: &mut T, x: F, bit: usize) -> (r: Elem)
    requires
        old(b).inv(),
        bit < old(b)@.next,
    ensures
        final(b).inv(),
        final(b)@ == old(b)@,
        elem_ok(r@, final(b)@.next),
        forall|env: Env| #[trigger]
            netlist::bits(final(b)@, env, r@) == (if netlist::value(old(b)@, env, bit as int) {
                x@
            } else {
                field::zero128()
            }),
{
    let zero = b.zero();
    let v = x.to_repr();
    let mut r: Vec<usize> = Vec::with_capacity(128);
    while r.len() < 128
        invariant
            zero == 0,
            v == x.repr,
            r@.len() <= 128,
            forall|j: int|
                0 <= j < r@.len() ==> #[trigger] r@[j] == (if x@[j] {
                    bit
                } else {
                    0usize
                }),
        decreases 128 - r@.len(),
    {
        let k: u128 = r.len() as u128;
        if (v >> k) & 1 == 1 {
            r.push(bit);
        } else {
            r.push(zero);
        }
    }
    proof {
        b.lemma_inv();
        assert forall|env: Env| #[trigger] netlist::bits(b@, env, r@) == (if netlist::value(
            b@,
            env,
            bit as int,
        ) {
            x@
        } else {
            field::zero128()
        }) by {
            netlist::lemma_constants(b@, env);
            let want = if netlist::value(b@, env, bit as int) {
                x@
            } else {
                field::zero128()
            };
            assert(netlist::bits(b@, env, r@) =~= want);
        }
    }
    r
}

/// The domain point of an index given as wires: a selection of constant bits
/// by the index bits, and no gate at all but XORs.
fn domain_point<T: CircuitTrait>(b: &mut T, index_bits: &[usize]) -> (x: Elem)
    requires
        old(b).inv(),
        netlist::below(index_bits@, old(b)@.next),
        index_bits@.len() <= 128,
    ensures
        final(b).inv(),
        netlist::ext(old(b)@, final(b)@),
        elem_ok(x@, final(b)@.next),
        forall|env: Env| #[trigger]
            netlist::bits(final(b)@, env, x@) == protocol::domain_point(
                bytes::nat_of(netlist::bits(old(b)@, env, index_bits@)),
            ),
{
    let ghost first = b@;
    let mut acc = wires::zero_elem(b);
    let mut r: usize = 0;
    proof {
        netlist::lemma_ext_refl(first);
        assert forall|env: Env|
            field::plus(
                #[trigger] netlist::bits(b@, env, acc@),
                domain_bits(netlist::bits(first, env, index_bits@).skip(0), 0),
            ) == domain_bits(netlist::bits(first, env, index_bits@), 0) by {
            let s = netlist::bits(first, env, index_bits@);
            assert(s.skip(0) =~= s);
            lemma_domain_bits(s, 0);
            field::law_plus_self(domain_bits(s, 0));
            field::law_plus_comm(field::zero128(), domain_bits(s, 0));
        }
    }
    while r < index_bits.len()
        invariant
            b.inv(),
            r <= index_bits@.len() <= 128,
            netlist::below(index_bits@, first.next),
            netlist::ext(first, b@),
            elem_ok(acc@, b@.next),
            forall|env: Env|
                field::plus(
                    #[trigger] netlist::bits(b@, env, acc@),
                    domain_bits(netlist::bits(first, env, index_bits@).skip(r as int), r as nat),
                ) == domain_bits(netlist::bits(first, env, index_bits@), 0),
        decreases index_bits@.len() - r,
    {
        let ghost c0 = b@;
        let ghost a0 = acc@;
        let bit = index_bits[r];
        let basis = F::cantor_basis(r);
        let w = gated(b, basis, bit);
        acc = crate::whir_gc::wires::add(b, &acc, &w);
        proof {
            assert forall|env: Env|
                field::plus(
                    #[trigger] netlist::bits(b@, env, acc@),
                    domain_bits(
                        netlist::bits(first, env, index_bits@).skip(r + 1),
                        (r + 1) as nat,
                    ),
                ) == domain_bits(netlist::bits(first, env, index_bits@), 0) by {
                let s = netlist::bits(first, env, index_bits@);
                let t = s.skip(r as int);
                let higher = domain_bits(s.skip(r + 1), (r + 1) as nat);
                assert(t.skip(1) =~= s.skip(r + 1));
                assert(t[0] == s[r as int]);
                lemma_domain_bits(s.skip(r + 1), (r + 1) as nat);
                assert(netlist::value(c0, env, bit as int) == s[r as int]);
                let va = netlist::bits(c0, env, a0);
                let vw = netlist::bits(c0, env, w@);
                assert(netlist::bits(b@, env, acc@) == field::plus(va, vw));
                field::law_plus_assoc(va, vw, higher);
                if !s[r as int] {
                    field::law_plus_self(va);
                }
                assert(field::plus(va, domain_bits(t, r as nat)) == domain_bits(s, 0));
            }
        }
        r = r + 1;
    }
    proof {
        assert forall|env: Env| #[trigger]
            netlist::bits(b@, env, acc@) == protocol::domain_point(
                bytes::nat_of(netlist::bits(first, env, index_bits@)),
            ) by {
            let s = netlist::bits(first, env, index_bits@);
            lemma_domain_bits(s, 0);
            field::law_plus_self(netlist::bits(b@, env, acc@));
        }
    }
    acc
}

/// `(S_{n-1}(x), ..., S_0(x))`, `S_j` the `j`-fold iterate of `v -> v^2 + v`.
pub(crate) fn query_point<T: CircuitTrait>(
    b: &mut T,
    num_variables: usize,
    index_bits: &[usize],
) -> (out: Vec<Elem>)
    requires
        old(b).inv(),
        netlist::below(index_bits@, old(b)@.next),
        index_bits@.len() <= 128,
    ensures
        final(b).inv(),
        netlist::ext(old(b)@, final(b)@),
        out@.len() == num_variables,
        elems_ok(out@, final(b)@.next),
        forall|env: Env| #[trigger]
            netlist::words(final(b)@, env, out@) == protocol::query_point(
                num_variables as nat,
                bytes::nat_of(netlist::bits(old(b)@, env, index_bits@)),
            ),
{
    let ghost n0 = b@;
    let x = domain_point(b, index_bits);
    let ghost first = b@;
    let mut v = copy_elem(&x);
    let mut up: Vec<Elem> = Vec::new();
    proof {
        netlist::lemma_ext_refl(first);
    }
    while up.len() < num_variables
        invariant
            b.inv(),
            netlist::ext(first, b@),
            up@.len() <= num_variables,
            elems_ok(up@, b@.next),
            elem_ok(v@, b@.next),
            forall|env: Env| #[trigger]
                netlist::bits(b@, env, v@) == protocol::subspace_polynomial(
                    up@.len(),
                    netlist::bits(first, env, x@),
                ),
            forall|env: Env, i: int|
                0 <= i < up@.len() ==> #[trigger] netlist::bits(b@, env, up@[i]@)
                    == protocol::subspace_polynomial(i as nat, netlist::bits(first, env, x@)),
        decreases num_variables - up@.len(),
    {
        let ghost c = b@;
        let ghost up0 = up@;
        let ghost v0 = v@;
        up.push(copy_elem(&v));
        let sq = square(b, &v);
        let ghost c1 = b@;
        v = crate::whir_gc::wires::add(b, &sq, &v);
        proof {
            assert forall|env: Env, i: int| 0 <= i < up@.len() implies #[trigger] netlist::bits(
                b@,
                env,
                up@[i]@,
            ) == protocol::subspace_polynomial(i as nat, netlist::bits(first, env, x@)) by {
                if i < up0.len() {
                    assert(up@[i] == up0[i]);
                    assert(up0[i]@.len() == 128 && netlist::below(up0[i]@, c.next));
                    assert(netlist::bits(c, env, up0[i]@) == protocol::subspace_polynomial(
                        i as nat,
                        netlist::bits(first, env, x@),
                    ));
                } else {
                    assert(netlist::bits(c, env, v0) == netlist::bits(b@, env, v0));
                }
            }
            assert forall|env: Env| #[trigger]
                netlist::bits(b@, env, v@) == protocol::subspace_polynomial(
                    up@.len(),
                    netlist::bits(first, env, x@),
                ) by {
                assert(netlist::bits(c, env, v0) == protocol::subspace_polynomial(
                    up0.len(),
                    netlist::bits(first, env, x@),
                ));
                assert(netlist::bits(c1, env, v0) == netlist::bits(c, env, v0));
            }
        }
    }
    let out = wires::reversed(up.as_slice());
    proof {
        assert(elems_ok(out@, b@.next));
        assert forall|env: Env| #[trigger]
            netlist::words(b@, env, out@) == protocol::query_point(
                num_variables as nat,
                bytes::nat_of(netlist::bits(n0, env, index_bits@)),
            ) by {
            let want = protocol::query_point(
                num_variables as nat,
                bytes::nat_of(netlist::bits(n0, env, index_bits@)),
            );
            let ups = netlist::words(b@, env, up@);
            let vx = netlist::bits(first, env, x@);
            assert forall|i: int| 0 <= i < num_variables implies netlist::words(
                b@,
                env,
                out@,
            )[i] == want[i] by {
                assert(netlist::bits(b@, env, up@[num_variables - 1 - i]@)
                    == protocol::subspace_polynomial((num_variables - 1 - i) as nat, vx));
                assert(protocol::reversed(ups)[i] == ups[num_variables - 1 - i]);
            }
            assert(netlist::words(b@, env, out@) =~= want);
        }
    }
    out
}

} // verus!

//! The arithmetic of the multi-STARK layers on wires: products and tables, the
//! tensor algebra, the constraints.
//!
//! Multiplications are tower products, additions are free, and the tensor
//! algebra is 128 elements a side with its transposition a rewiring.
use super::field;
use super::field::Elt;
use super::gates::CircuitTrait;
use super::netlist;
use super::netlist::{Env, Netlist};
use super::protocol;
use super::stark;
use super::stark::{Air, Node, DIM};
use super::stark_model;
use super::stark_model::{BoundaryM, TensorM};
use super::wires;
use super::wires::{elem_ok, elems_ok, Elem};
use vstd::arithmetic::power2::pow2;
use vstd::prelude::*;

verus! {

broadcast use netlist::group_netlist;

// ---------------------------------------------------------------------------
// Products, sums of products and tables.
// ---------------------------------------------------------------------------

/// The product of a list.
pub(crate) fn product<T: CircuitTrait>(b: &mut T, xs: &[Elem]) -> (v: Elem)
    requires
        old(b).inv(),
        elems_ok(xs@, old(b)@.next),
    ensures
        final(b).inv(),
        netlist::ext(old(b)@, final(b)@),
        elem_ok(v@, final(b)@.next),
        forall|env: Env| #[trigger]
            netlist::bits(final(b)@, env, v@) == stark_model::product(
                netlist::words(old(b)@, env, xs@),
            ),
{
    let ghost first = b@;
    let mut v = wires::one_elem(b);
    let mut k: usize = 0;
    proof {
        netlist::lemma_ext_refl(first);
        assert forall|env: Env| #[trigger]
            netlist::bits(b@, env, v@) == stark_model::product(
                netlist::words(first, env, xs@).take(0),
            ) by {
            assert(netlist::words(first, env, xs@).take(0) =~= Seq::<Elt>::empty());
        }
    }
    while k < xs.len()
        invariant
            b.inv(),
            netlist::ext(first, b@),
            k <= xs@.len(),
            elems_ok(xs@, first.next),
            elem_ok(v@, b@.next),
            forall|env: Env| #[trigger]
                netlist::bits(b@, env, v@) == stark_model::product(
                    netlist::words(first, env, xs@).take(k as int),
                ),
        decreases xs@.len() - k,
    {
        let ghost c0 = b@;
        let ghost v0 = v@;
        assert(elem_ok(xs@[k as int]@, first.next));
        v = crate::whir_gc::wires::mul(b, &v, &xs[k]);
        proof {
            assert forall|env: Env| #[trigger]
                netlist::bits(b@, env, v@) == stark_model::product(
                    netlist::words(first, env, xs@).take(k + 1),
                ) by {
                let all = netlist::words(first, env, xs@);
                assert(all.take(k + 1).drop_last() =~= all.take(k as int));
                assert(all.take(k + 1).last() == netlist::bits(first, env, xs@[k as int]@));
                assert(netlist::bits(c0, env, v0) == stark_model::product(all.take(k as int)));
            }
        }
        k = k + 1;
    }
    proof {
        assert forall|env: Env| #[trigger]
            netlist::bits(b@, env, v@) == stark_model::product(
                netlist::words(first, env, xs@),
            ) by {
            let all = netlist::words(first, env, xs@);
            assert(all.take(k as int) =~= all);
        }
    }
    v
}

/// `sum values[i] weights[i]` over the values.
pub(crate) fn dot<T: CircuitTrait>(b: &mut T, values: &[Elem], weights: &[Elem]) -> (v: Elem)
    requires
        old(b).inv(),
        values@.len() <= weights@.len(),
        elems_ok(values@, old(b)@.next),
        elems_ok(weights@, old(b)@.next),
    ensures
        final(b).inv(),
        netlist::ext(old(b)@, final(b)@),
        elem_ok(v@, final(b)@.next),
        forall|env: Env| #[trigger]
            netlist::bits(final(b)@, env, v@) == stark_model::dot(
                netlist::words(old(b)@, env, values@),
                netlist::words(old(b)@, env, weights@),
            ),
{
    let ghost first = b@;
    let mut v = wires::zero_elem(b);
    let mut k: usize = 0;
    proof {
        netlist::lemma_ext_refl(first);
        assert forall|env: Env| #[trigger]
            netlist::bits(b@, env, v@) == stark_model::dot(
                netlist::words(first, env, values@).take(0),
                netlist::words(first, env, weights@),
            ) by {
            assert(netlist::words(first, env, values@).take(0) =~= Seq::<Elt>::empty());
        }
    }
    while k < values.len()
        invariant
            b.inv(),
            netlist::ext(first, b@),
            k <= values@.len() <= weights@.len(),
            elems_ok(values@, first.next),
            elems_ok(weights@, first.next),
            elem_ok(v@, b@.next),
            forall|env: Env| #[trigger]
                netlist::bits(b@, env, v@) == stark_model::dot(
                    netlist::words(first, env, values@).take(k as int),
                    netlist::words(first, env, weights@),
                ),
        decreases values@.len() - k,
    {
        let ghost c0 = b@;
        let ghost v0 = v@;
        assert(elem_ok(values@[k as int]@, first.next));
        assert(elem_ok(weights@[k as int]@, first.next));
        let t = crate::whir_gc::wires::mul(b, &values[k], &weights[k]);
        let ghost c1 = b@;
        v = crate::whir_gc::wires::add(b, &v, &t);
        proof {
            assert forall|env: Env| #[trigger]
                netlist::bits(b@, env, v@) == stark_model::dot(
                    netlist::words(first, env, values@).take(k + 1),
                    netlist::words(first, env, weights@),
                ) by {
                let all = netlist::words(first, env, values@);
                assert(all.take(k + 1).drop_last() =~= all.take(k as int));
                assert(all.take(k + 1).last() == netlist::bits(first, env, values@[k as int]@));
                assert(netlist::bits(c1, env, v0) == netlist::bits(c0, env, v0));
                assert(netlist::bits(c0, env, v0) == stark_model::dot(
                    all.take(k as int),
                    netlist::words(first, env, weights@),
                ));
            }
        }
        k = k + 1;
    }
    proof {
        assert forall|env: Env| #[trigger]
            netlist::bits(b@, env, v@) == stark_model::dot(
                netlist::words(first, env, values@),
                netlist::words(first, env, weights@),
            ) by {
            let all = netlist::words(first, env, values@);
            assert(all.take(k as int) =~= all);
        }
    }
    v
}

/// One more bit of an `eq` table: one multiplication per entry, `t p` and
/// `t (1 + p) = t + t p`.
fn split_table<T: CircuitTrait>(b: &mut T, table: &Vec<Elem>, p: &Elem) -> (next: Vec<Elem>)
    requires
        old(b).inv(),
        elems_ok(table@, old(b)@.next),
        elem_ok(p@, old(b)@.next),
    ensures
        final(b).inv(),
        netlist::ext(old(b)@, final(b)@),
        next@.len() == 2 * table@.len(),
        elems_ok(next@, final(b)@.next),
        forall|env: Env| #[trigger]
            netlist::words(final(b)@, env, next@) == stark_model::split_table(
                netlist::words(old(b)@, env, table@),
                netlist::bits(old(b)@, env, p@),
            ),
{
    let ghost first = b@;
    let mut next: Vec<Elem> = Vec::new();
    let mut k: usize = 0;
    proof {
        netlist::lemma_ext_refl(first);
    }
    while k < table.len()
        invariant
            b.inv(),
            netlist::ext(first, b@),
            k <= table@.len(),
            elems_ok(table@, first.next),
            elem_ok(p@, first.next),
            next@.len() == 2 * k,
            elems_ok(next@, b@.next),
            forall|env: Env, i: int|
                0 <= i < next@.len() ==> #[trigger] netlist::bits(b@, env, next@[i]@)
                    == stark_model::split_table(
                    netlist::words(first, env, table@),
                    netlist::bits(first, env, p@),
                )[i],
        decreases table@.len() - k,
    {
        let ghost c0 = b@;
        let ghost next0 = next@;
        assert(elem_ok(table@[k as int]@, first.next));
        let tp = crate::whir_gc::wires::mul(b, &table[k], p);
        let ghost c1 = b@;
        let low = crate::whir_gc::wires::add(b, &table[k], &tp);
        let ghost lw = low@;
        let ghost tw = tp@;
        next.push(low);
        next.push(tp);
        proof {
            assert forall|i: int| 0 <= i < next@.len() implies (#[trigger] next@[i])@.len() == 128
                && netlist::below(next@[i]@, b@.next) by {
                if i < 2 * k {
                    assert(next@[i] == next0[i]);
                    assert(next0[i]@.len() == 128 && netlist::below(next0[i]@, c0.next));
                } else if i == 2 * k {
                    assert(next@[i]@ == lw);
                } else {
                    assert(next@[i]@ == tw);
                }
            }
            assert forall|env: Env, i: int|
                0 <= i < next@.len() implies #[trigger] netlist::bits(b@, env, next@[i]@)
                == stark_model::split_table(
                netlist::words(first, env, table@),
                netlist::bits(first, env, p@),
            )[i] by {
                let want = stark_model::split_table(
                    netlist::words(first, env, table@),
                    netlist::bits(first, env, p@),
                );
                if i < 2 * k {
                    assert(next@[i] == next0[i]);
                    assert(netlist::below(next0[i]@, c0.next));
                    assert(netlist::bits(c0, env, next0[i]@) == want[i]);
                } else {
                    let t = netlist::bits(first, env, table@[k as int]@);
                    let q = netlist::bits(first, env, p@);
                    assert(netlist::words(first, env, table@)[k as int] == t);
                    assert(netlist::bits(c1, env, tw) == field::times(t, q));
                    assert(netlist::bits(b@, env, tw) == field::times(t, q));
                    field::lemma_level_128();
                    field::law_distribute_right(t, field::one128(), q);
                    field::law_times_one(t);
                    if i == 2 * k {
                        assert(next@[i]@ == lw);
                        assert(i / 2 == k && i % 2 == 0);
                    } else {
                        assert(next@[i]@ == tw);
                        assert(i / 2 == k && i % 2 == 1);
                    }
                }
            }
        }
        k = k + 1;
    }
    proof {
        assert forall|env: Env| #[trigger]
            netlist::words(b@, env, next@) == stark_model::split_table(
                netlist::words(first, env, table@),
                netlist::bits(first, env, p@),
            ) by {
            let want = stark_model::split_table(
                netlist::words(first, env, table@),
                netlist::bits(first, env, p@),
            );
            assert forall|i: int| 0 <= i < next@.len() implies netlist::words(b@, env, next@)[i]
                == want[i] by {
                assert(netlist::bits(b@, env, next@[i]@) == want[i]);
            }
            assert(netlist::words(b@, env, next@) =~= want);
        }
    }
    next
}

/// The `eq` table of `point`, big-endian, `2^m` entries.
pub fn eq_table<T: CircuitTrait>(b: &mut T, point: &[Elem]) -> (table: Vec<Elem>)
    requires
        old(b).inv(),
        elems_ok(point@, old(b)@.next),
    ensures
        final(b).inv(),
        netlist::ext(old(b)@, final(b)@),
        table@.len() == pow2(point@.len()),
        elems_ok(table@, final(b)@.next),
        forall|env: Env| #[trigger]
            netlist::words(final(b)@, env, table@) == stark_model::eq_table(
                netlist::words(old(b)@, env, point@),
            ),
{
    let ghost first = b@;
    let mut table: Vec<Elem> = Vec::new();
    let one = wires::one_elem(b);
    let ghost ow = one@;
    table.push(one);
    let mut k: usize = 0;
    proof {
        netlist::lemma_ext_refl(first);
        vstd::arithmetic::power2::lemma2_to64();
        assert forall|env: Env| #[trigger]
            netlist::words(b@, env, table@) == stark_model::eq_table(
                netlist::words(first, env, point@).take(0),
            ) by {
            assert(netlist::words(first, env, point@).take(0) =~= Seq::<Elt>::empty());
            assert(netlist::bits(b@, env, ow) == field::one128());
            assert(netlist::words(b@, env, table@) =~= seq![field::one128()]);
        }
    }
    while k < point.len()
        invariant
            b.inv(),
            netlist::ext(first, b@),
            k <= point@.len(),
            elems_ok(point@, first.next),
            table@.len() == pow2(k as nat),
            elems_ok(table@, b@.next),
            forall|env: Env| #[trigger]
                netlist::words(b@, env, table@) == stark_model::eq_table(
                    netlist::words(first, env, point@).take(k as int),
                ),
        decreases point@.len() - k,
    {
        let ghost c0 = b@;
        let ghost t0 = table@;
        assert(elem_ok(point@[k as int]@, first.next));
        table = split_table(b, &table, &point[k]);
        proof {
            vstd::arithmetic::power2::lemma_pow2_unfold((k + 1) as nat);
            assert forall|env: Env| #[trigger]
                netlist::words(b@, env, table@) == stark_model::eq_table(
                    netlist::words(first, env, point@).take(k + 1),
                ) by {
                let all = netlist::words(first, env, point@);
                assert(all.take(k + 1).drop_last() =~= all.take(k as int));
                assert(all.take(k + 1).last() == netlist::bits(first, env, point@[k as int]@));
                assert(netlist::words(c0, env, t0) == stark_model::eq_table(all.take(k as int)));
            }
        }
        k = k + 1;
    }
    proof {
        assert forall|env: Env| #[trigger]
            netlist::words(b@, env, table@) == stark_model::eq_table(
                netlist::words(first, env, point@),
            ) by {
            let all = netlist::words(first, env, point@);
            assert(all.take(k as int) =~= all);
        }
    }
    table
}

// ---------------------------------------------------------------------------
// The round polynomial.
// ---------------------------------------------------------------------------

proof fn lemma_product_concat(a: Seq<Elt>, c: Seq<Elt>)
    requires
        forall|i: int| 0 <= i < a.len() ==> (#[trigger] a[i]).len() == 128,
        forall|i: int| 0 <= i < c.len() ==> (#[trigger] c[i]).len() == 128,
    ensures
        stark_model::product(a + c) == field::times(
            stark_model::product(a),
            stark_model::product(c),
        ),
    decreases c.len(),
{
    field::lemma_level_128();
    stark_model::lemma_product_len(a);
    if c.len() == 0 {
        assert(a + c =~= a);
        field::law_times_one(stark_model::product(a));
    } else {
        let rest = c.drop_last();
        assert forall|i: int| 0 <= i < rest.len() implies (#[trigger] rest[i]).len() == 128 by {
            assert(rest[i] == c[i]);
        }
        lemma_product_concat(a, rest);
        stark_model::lemma_product_len(rest);
        assert((a + c).drop_last() =~= a + rest);
        assert(c[c.len() - 1].len() == 128);
        field::law_times_assoc(
            stark_model::product(a),
            stark_model::product(rest),
            c.last(),
        );
    }
}

proof fn lemma_product_reversed(a: Seq<Elt>)
    requires
        forall|i: int| 0 <= i < a.len() ==> (#[trigger] a[i]).len() == 128,
    ensures
        stark_model::product(protocol::reversed(a)) == stark_model::product(a),
    decreases a.len(),
{
    field::lemma_level_128();
    let r = protocol::reversed(a);
    if a.len() == 0 {
        assert(r =~= a);
    } else {
        let rest = a.skip(1);
        assert forall|i: int| 0 <= i < rest.len() implies (#[trigger] rest[i]).len() == 128 by {
            assert(rest[i] == a[i + 1]);
        }
        lemma_product_reversed(rest);
        stark_model::lemma_product_len(rest);
        assert(r.drop_last() =~= protocol::reversed(rest));
        assert(r.last() == a[0]);
        let head = seq![a[0]];
        assert(a =~= head + rest);
        assert(a[0].len() == 128);
        assert forall|i: int| 0 <= i < head.len() implies (#[trigger] head[i]).len() == 128 by {}
        lemma_product_concat(head, rest);
        assert(head.drop_last() =~= Seq::<Elt>::empty());
        assert(head.last() == a[0]);
        assert(stark_model::product(head.drop_last()) == field::one128());
        assert(stark_model::product(head) == field::times(field::one128(), a[0]));
        field::law_times_one(a[0]);
        field::law_times_comm(field::one128(), a[0]);
        field::law_times_comm(stark_model::product(rest), a[0]);
    }
}

/// `r - x_i` for every node.
spec fn factors(r: Elt) -> Seq<Elt> {
    Seq::new(5, |i: int| field::plus(r, stark_model::node(i)))
}

/// The factors before node `j` and behind it are the other factors.
proof fn lemma_other_factors(r: Elt, j: int)
    requires
        0 <= j < 5,
        r.len() == 128,
    ensures
        stark_model::product(stark_model::other_factors(r, j)) == field::times(
            stark_model::product(factors(r).take(j)),
            stark_model::product(protocol::reversed(factors(r).skip(j + 1))),
        ),
        stark_model::product(factors(r).take(j)).len() == 128,
        stark_model::product(stark_model::other_factors(r, j)).len() == 128,
{
    let d = factors(r);
    let a = d.take(j);
    let c = d.skip(j + 1);
    assert forall|i: int| 0 <= i < a.len() implies (#[trigger] a[i]).len() == 128 by {
        assert(a[i] == d[i]);
    }
    assert forall|i: int| 0 <= i < c.len() implies (#[trigger] c[i]).len() == 128 by {
        assert(c[i] == d[j + 1 + i]);
    }
    lemma_product_concat(a, c);
    lemma_product_reversed(c);
    stark_model::lemma_product_len(a);
    let o = stark_model::other_factors(r, j);
    assert(o =~= a + c);
    assert forall|i: int| 0 <= i < o.len() implies (#[trigger] o[i]).len() == 128 by {}
    stark_model::lemma_product_len(o);
}

/// `r - x_i` for every node, on wires.
fn node_factors<T: CircuitTrait>(b: &mut T, r: &Elem) -> (d: Vec<Elem>)
    requires
        old(b).inv(),
        elem_ok(r@, old(b)@.next),
    ensures
        final(b).inv(),
        netlist::ext(old(b)@, final(b)@),
        d@.len() == 5,
        elems_ok(d@, final(b)@.next),
        forall|env: Env| #[trigger]
            netlist::words(final(b)@, env, d@) == factors(netlist::bits(old(b)@, env, r@)),
{
    let ghost first = b@;
    let mut d: Vec<Elem> = Vec::new();
    proof {
        netlist::lemma_ext_refl(first);
    }
    while d.len() < 5
        invariant
            b.inv(),
            netlist::ext(first, b@),
            elem_ok(r@, first.next),
            d@.len() <= 5,
            elems_ok(d@, b@.next),
            forall|env: Env, i: int|
                0 <= i < d@.len() ==> #[trigger] netlist::bits(b@, env, d@[i]@) == field::plus(
                    netlist::bits(first, env, r@),
                    stark_model::node(i),
                ),
        decreases 5 - d@.len(),
    {
        let k = d.len();
        let ghost c0 = b@;
        let ghost d0 = d@;
        let x = wires::constant(b, stark::node(k));
        let y = crate::whir_gc::wires::add(b, r, &x);
        d.push(y);
        proof {
            assert forall|env: Env, i: int|
                0 <= i < d@.len() implies #[trigger] netlist::bits(b@, env, d@[i]@)
                == field::plus(netlist::bits(first, env, r@), stark_model::node(i)) by {
                if i < k {
                    assert(d@[i] == d0[i]);
                    assert(elem_ok(d0[i]@, c0.next));
                    assert(netlist::bits(c0, env, d0[i]@) == netlist::bits(b@, env, d0[i]@));
                } else {
                    assert(netlist::bits(c0, env, r@) == netlist::bits(first, env, r@));
                }
            }
        }
    }
    proof {
        assert forall|env: Env| #[trigger]
            netlist::words(b@, env, d@) == factors(netlist::bits(first, env, r@)) by {
            let want = factors(netlist::bits(first, env, r@));
            assert forall|i: int| 0 <= i < 5 implies netlist::words(b@, env, d@)[i]
                == want[i] by {
                assert(netlist::bits(b@, env, d@[i]@) == field::plus(
                    netlist::bits(first, env, r@),
                    stark_model::node(i),
                ));
            }
            assert(netlist::words(b@, env, d@) =~= want);
        }
    }
    d
}

/// The products of the first `i` elements of a list, for `i` up to `n`.
fn running_products<T: CircuitTrait>(b: &mut T, xs: &Vec<Elem>, n: usize) -> (out: Vec<Elem>)
    requires
        old(b).inv(),
        elems_ok(xs@, old(b)@.next),
        n <= xs@.len(),
    ensures
        final(b).inv(),
        netlist::ext(old(b)@, final(b)@),
        out@.len() == n + 1,
        elems_ok(out@, final(b)@.next),
        forall|env: Env, i: int|
            0 <= i <= n ==> #[trigger] netlist::bits(final(b)@, env, out@[i]@)
                == stark_model::product(netlist::words(old(b)@, env, xs@).take(i)),
{
    let ghost first = b@;
    let mut out: Vec<Elem> = Vec::new();
    let one = wires::one_elem(b);
    out.push(one);
    let mut k: usize = 0;
    proof {
        netlist::lemma_ext_refl(first);
        assert forall|env: Env, i: int|
            0 <= i < out@.len() implies #[trigger] netlist::bits(b@, env, out@[i]@)
            == stark_model::product(netlist::words(first, env, xs@).take(i)) by {
            assert(netlist::words(first, env, xs@).take(0) =~= Seq::<Elt>::empty());
        }
    }
    while k < n
        invariant
            b.inv(),
            netlist::ext(first, b@),
            k <= n <= xs@.len(),
            elems_ok(xs@, first.next),
            out@.len() == k + 1,
            elems_ok(out@, b@.next),
            forall|env: Env, i: int|
                0 <= i < out@.len() ==> #[trigger] netlist::bits(b@, env, out@[i]@)
                    == stark_model::product(netlist::words(first, env, xs@).take(i)),
        decreases n - k,
    {
        let ghost c0 = b@;
        let ghost out0 = out@;
        assert(elem_ok(xs@[k as int]@, first.next));
        assert(elem_ok(out@[k as int]@, c0.next));
        let p = crate::whir_gc::wires::mul(b, &out[k], &xs[k]);
        out.push(p);
        proof {
            assert forall|env: Env, i: int|
                0 <= i < out@.len() implies #[trigger] netlist::bits(b@, env, out@[i]@)
                == stark_model::product(netlist::words(first, env, xs@).take(i)) by {
                let all = netlist::words(first, env, xs@);
                if i <= k {
                    assert(out@[i] == out0[i]);
                    assert(elem_ok(out0[i]@, c0.next));
                    assert(netlist::bits(c0, env, out0[i]@) == netlist::bits(b@, env, out0[i]@));
                } else {
                    assert(netlist::bits(c0, env, out0[k as int]@) == stark_model::product(
                        all.take(k as int),
                    ));
                    assert(all.take(k + 1).drop_last() =~= all.take(k as int));
                    assert(all.take(k + 1).last() == netlist::bits(first, env, xs@[k as int]@));
                }
            }
        }
        k = k + 1;
    }
    out
}

/// The degree-4 round polynomial through the nodes `0..=4` at `r`: Lagrange
/// form with constant denominators and prefix and suffix products.
#[verifier::rlimit(40)]
pub(crate) fn round_poly_at<T: CircuitTrait>(
    b: &mut T,
    evals: &Vec<Elem>,
    running: &Elem,
    r: &Elem,
) -> (v: Elem)
    requires
        old(b).inv(),
        evals@.len() == 4,
        elems_ok(evals@, old(b)@.next),
        elem_ok(running@, old(b)@.next),
        elem_ok(r@, old(b)@.next),
    ensures
        final(b).inv(),
        netlist::ext(old(b)@, final(b)@),
        elem_ok(v@, final(b)@.next),
        forall|env: Env| #[trigger]
            netlist::bits(final(b)@, env, v@) == stark_model::round_poly_at(
                netlist::words(old(b)@, env, evals@),
                netlist::bits(old(b)@, env, running@),
                netlist::bits(old(b)@, env, r@),
            ),
{
    let ghost first = b@;
    assert(elem_ok(evals@[0]@, first.next));
    assert(elem_ok(evals@[1]@, first.next));
    assert(elem_ok(evals@[2]@, first.next));
    assert(elem_ok(evals@[3]@, first.next));
    let h1 = crate::whir_gc::wires::add(b, running, &evals[0]);
    let ghost b1 = b@;
    let mut full: Vec<Elem> = Vec::new();
    full.push(wires::copy_elem(&evals[0]));
    full.push(h1);
    full.push(wires::copy_elem(&evals[1]));
    full.push(wires::copy_elem(&evals[2]));
    full.push(wires::copy_elem(&evals[3]));
    let ghost values = |env: Env|
        stark_model::node_values(
            netlist::words(first, env, evals@),
            netlist::bits(first, env, running@),
        );
    proof {
        assert(elems_ok(full@, b1.next));
        assert forall|env: Env| true implies #[trigger] netlist::words(b1, env, full@)
            == values(env) by {
            assert(netlist::words(b1, env, full@) =~= values(env));
        }
    }
    let d = node_factors(b, r);
    let ghost b2 = b@;
    let prefix = running_products(b, &d, 4);
    let ghost b3 = b@;
    let rd = wires::reversed(d.as_slice());
    let suffix = running_products(b, &rd, 4);
    let ghost b4 = b@;
    let mut out = wires::zero_elem(b);
    let mut j: usize = 0;
    proof {
        netlist::lemma_ext_refl(b4);
    }
    while j < 5
        invariant
            b.inv(),
            netlist::ext(first, b1),
            netlist::ext(b1, b2),
            netlist::ext(b2, b3),
            netlist::ext(b3, b4),
            netlist::ext(b4, b@),
            elem_ok(r@, first.next),
            full@.len() == 5,
            elems_ok(full@, b1.next),
            d@.len() == 5,
            prefix@.len() == 5,
            suffix@.len() == 5,
            elems_ok(prefix@, b3.next),
            elems_ok(suffix@, b4.next),
            elems_ok(d@, b2.next),
            rd@.len() == 5,
            forall|env: Env| #[trigger] netlist::words(b1, env, full@) == values(env),
            forall|env: Env| #[trigger]
                netlist::words(b2, env, d@) == factors(netlist::bits(b1, env, r@)),
            forall|env: Env, i: int|
                0 <= i <= 4 ==> #[trigger] netlist::bits(b3, env, prefix@[i]@)
                    == stark_model::product(netlist::words(b2, env, d@).take(i)),
            forall|c: Netlist, env: Env| #[trigger]
                netlist::words(c, env, rd@) == protocol::reversed(netlist::words(c, env, d@)),
            forall|env: Env, i: int|
                0 <= i <= 4 ==> #[trigger] netlist::bits(b4, env, suffix@[i]@)
                    == stark_model::product(netlist::words(b3, env, rd@).take(i)),
            j <= 5,
            elem_ok(out@, b@.next),
            forall|env: Env| #[trigger]
                netlist::bits(b@, env, out@) == stark_model::lagrange(
                    values(env),
                    netlist::bits(first, env, r@),
                    j as nat,
                ),
        decreases 5 - j,
    {
        let ghost c0 = b@;
        let ghost out0 = out@;
        let ghost pj = prefix@[j as int]@;
        let ghost sj = suffix@[4 - j]@;
        let ghost fj = full@[j as int]@;
        assert(elem_ok(pj, b3.next));
        assert(elem_ok(sj, b4.next));
        assert(elem_ok(fj, b1.next));
        let inv = wires::constant(b, stark::inverse_denominator(j));
        let num = crate::whir_gc::wires::mul(b, &prefix[j], &suffix[4 - j]);
        let ghost c1 = b@;
        let basis = crate::whir_gc::wires::mul(b, &num, &inv);
        let ghost c2 = b@;
        let term = crate::whir_gc::wires::mul(b, &full[j], &basis);
        let ghost c3 = b@;
        out = crate::whir_gc::wires::add(b, &out, &term);
        proof {
            assert forall|env: Env| #[trigger]
                netlist::bits(b@, env, out@) == stark_model::lagrange(
                    values(env),
                    netlist::bits(first, env, r@),
                    (j + 1) as nat,
                ) by {
                let re = netlist::bits(first, env, r@);
                let f = factors(re);
                assert(netlist::bits(b1, env, r@) == re);
                assert(netlist::words(b2, env, d@) == f);
                assert(netlist::words(b3, env, d@) == f);
                let rf = protocol::reversed(f);
                assert(netlist::words(b3, env, rd@) == rf);
                assert(rf.take(4 - j) =~= protocol::reversed(f.skip(j + 1)));
                lemma_other_factors(re, j as int);
                let num_m = stark_model::product(stark_model::other_factors(re, j as int));
                assert(netlist::bits(c0, env, pj) == stark_model::product(f.take(j as int)));
                assert(netlist::bits(c0, env, sj) == stark_model::product(
                    protocol::reversed(f.skip(j + 1)),
                ));
                assert(netlist::bits(c1, env, num@) == num_m);
                let i = field::inverse(stark_model::denominator(j as int));
                assert(netlist::bits(c1, env, inv@) == netlist::bits(c0, env, inv@));
                assert(netlist::bits(c1, env, inv@) == i);
                assert(netlist::bits(c2, env, basis@) == field::times(num_m, i));
                let x = values(env)[j as int];
                assert(netlist::words(b1, env, full@)[j as int] == netlist::bits(b1, env, fj));
                assert(netlist::bits(c2, env, fj) == x);
                assert(x.len() == 128) by {
                    assert(netlist::bits(b1, env, fj).len() == 128);
                }
                assert(i.len() == 128) by {
                    assert(netlist::bits(c0, env, inv@).len() == 128);
                }
                field::lemma_level_128();
                field::law_times_assoc(x, num_m, i);
                assert(netlist::bits(c3, env, term@) == field::times(
                    field::times(x, num_m),
                    i,
                ));
                assert(netlist::bits(c3, env, out0) == netlist::bits(c0, env, out0));
            }
        }
        j = j + 1;
    }
    out
}

// ---------------------------------------------------------------------------
// The tensor algebra.
// ---------------------------------------------------------------------------

/// A tensor on wires, as 128 rows.
pub struct Tensor {
    pub rows: Vec<Elem>,
}

impl Tensor {
    pub open spec fn wf(self, n: nat) -> bool {
        self.rows@.len() == DIM && elems_ok(self.rows@, n)
    }

    pub open spec fn model(self, c: Netlist, env: Env) -> TensorM {
        netlist::words(c, env, self.rows@)
    }
}

pub proof fn lemma_tensor_ext(t: Tensor, a: Netlist, b: Netlist)
    requires
        netlist::ext(a, b),
        t.wf(a.next),
    ensures
        t.wf(b.next),
        forall|env: Env| #[trigger] t.model(b, env) == t.model(a, env),
{
}

/// The transposition of 128 rows: wire `v` of row `u` is wire `u` of row `v`.
pub(crate) fn transpose(rows: &Vec<Elem>) -> (out: Vec<Elem>)
    requires
        rows@.len() == DIM,
        forall|i: int| 0 <= i < DIM ==> (#[trigger] rows@[i])@.len() == 128,
    ensures
        out@.len() == DIM,
        forall|n: nat| elems_ok(rows@, n) ==> #[trigger] elems_ok(out@, n),
        forall|c: Netlist, env: Env| #[trigger]
            netlist::words(c, env, out@) == stark_model::transposed(
                netlist::words(c, env, rows@),
            ),
{
    let mut out: Vec<Elem> = Vec::new();
    while out.len() < DIM
        invariant
            rows@.len() == DIM,
            forall|i: int| 0 <= i < DIM ==> (#[trigger] rows@[i])@.len() == 128,
            out@.len() <= DIM,
            forall|v: int| 0 <= v < out@.len() ==> (#[trigger] out@[v])@.len() == 128,
            forall|v: int, u: int|
                0 <= v < out@.len() && 0 <= u < 128 ==> #[trigger] out@[v]@[u] == rows@[u]@[v],
        decreases DIM - out@.len(),
    {
        let v = out.len();
        let ghost out0 = out@;
        let mut col: Elem = Vec::with_capacity(DIM);
        while col.len() < DIM
            invariant
                v < DIM,
                rows@.len() == DIM,
                forall|i: int| 0 <= i < DIM ==> (#[trigger] rows@[i])@.len() == 128,
                col@.len() <= DIM,
                forall|u: int| 0 <= u < col@.len() ==> #[trigger] col@[u] == rows@[u]@[v as int],
            decreases DIM - col@.len(),
        {
            let u = col.len();
            assert(rows@[u as int]@.len() == 128);
            col.push(rows[u][v]);
        }
        out.push(col);
        proof {
            assert forall|w: int, u: int|
                0 <= w < out@.len() && 0 <= u < 128 implies #[trigger] out@[w]@[u]
                == rows@[u]@[w] by {
                if w < v {
                    assert(out@[w] == out0[w]);
                    assert(out0[w]@[u] == rows@[u]@[w]);
                }
            }
        }
    }
    proof {
        assert forall|n: nat| elems_ok(rows@, n) implies #[trigger] elems_ok(out@, n) by {
            assert forall|v: int| 0 <= v < out@.len() implies (#[trigger] out@[v])@.len() == 128
                && netlist::below(out@[v]@, n) by {
                let col = out@[v]@;
                assert forall|u: int| 0 <= u < col.len() implies (#[trigger] col[u]) < n by {
                    assert(elem_ok(rows@[u]@, n));
                    assert(out@[v]@[u] == rows@[u]@[v]);
                }
            }
        }
        assert forall|c: Netlist, env: Env| #[trigger]
            netlist::words(c, env, out@) == stark_model::transposed(
                netlist::words(c, env, rows@),
            ) by {
            let got = netlist::words(c, env, out@);
            let want = stark_model::transposed(netlist::words(c, env, rows@));
            assert forall|v: int| 0 <= v < DIM implies got[v] == want[v] by {
                assert forall|u: int| 0 <= u < DIM implies got[v][u] == want[v][u] by {
                    assert(out@[v]@[u] == rows@[u]@[v]);
                }
                assert(got[v] =~= want[v]);
            }
            assert(got =~= want);
        }
    }
    out
}

/// Every element of a list times `y`.
fn scaled<T: CircuitTrait>(b: &mut T, xs: &Vec<Elem>, y: &Elem) -> (out: Vec<Elem>)
    requires
        old(b).inv(),
        xs@.len() == DIM,
        elems_ok(xs@, old(b)@.next),
        elem_ok(y@, old(b)@.next),
    ensures
        final(b).inv(),
        netlist::ext(old(b)@, final(b)@),
        out@.len() == DIM,
        elems_ok(out@, final(b)@.next),
        forall|env: Env| #[trigger]
            netlist::words(final(b)@, env, out@) == stark_model::scale_rows(
                netlist::words(old(b)@, env, xs@),
                netlist::bits(old(b)@, env, y@),
            ),
{
    let ghost first = b@;
    let mut out: Vec<Elem> = Vec::new();
    proof {
        netlist::lemma_ext_refl(first);
    }
    while out.len() < DIM
        invariant
            b.inv(),
            netlist::ext(first, b@),
            xs@.len() == DIM,
            elems_ok(xs@, first.next),
            elem_ok(y@, first.next),
            out@.len() <= DIM,
            elems_ok(out@, b@.next),
            forall|env: Env, i: int|
                0 <= i < out@.len() ==> #[trigger] netlist::bits(b@, env, out@[i]@)
                    == field::times(
                    netlist::bits(first, env, xs@[i]@),
                    netlist::bits(first, env, y@),
                ),
        decreases DIM - out@.len(),
    {
        let k = out.len();
        let ghost c0 = b@;
        let ghost out0 = out@;
        assert(elem_ok(xs@[k as int]@, first.next));
        let p = crate::whir_gc::wires::mul(b, &xs[k], y);
        out.push(p);
        proof {
            assert forall|env: Env, i: int|
                0 <= i < out@.len() implies #[trigger] netlist::bits(b@, env, out@[i]@)
                == field::times(
                netlist::bits(first, env, xs@[i]@),
                netlist::bits(first, env, y@),
            ) by {
                if i < k {
                    assert(out@[i] == out0[i]);
                    assert(elem_ok(out0[i]@, c0.next));
                    assert(netlist::bits(c0, env, out0[i]@) == netlist::bits(b@, env, out0[i]@));
                } else {
                    assert(netlist::bits(c0, env, xs@[i]@) == netlist::bits(first, env, xs@[i]@));
                    assert(netlist::bits(c0, env, y@) == netlist::bits(first, env, y@));
                }
            }
        }
    }
    proof {
        assert forall|env: Env| #[trigger]
            netlist::words(b@, env, out@) == stark_model::scale_rows(
                netlist::words(first, env, xs@),
                netlist::bits(first, env, y@),
            ) by {
            let want = stark_model::scale_rows(
                netlist::words(first, env, xs@),
                netlist::bits(first, env, y@),
            );
            assert forall|i: int| 0 <= i < DIM implies netlist::words(b@, env, out@)[i]
                == want[i] by {
                assert(netlist::bits(b@, env, out@[i]@) == field::times(
                    netlist::bits(first, env, xs@[i]@),
                    netlist::bits(first, env, y@),
                ));
            }
            assert(netlist::words(b@, env, out@) =~= want);
        }
    }
    out
}

/// An element gated by one wire.
fn gated<T: CircuitTrait>(b: &mut T, bit: usize, x: &Elem) -> (r: Elem)
    requires
        old(b).inv(),
        bit < old(b)@.next,
        elem_ok(x@, old(b)@.next),
    ensures
        final(b).inv(),
        netlist::ext(old(b)@, final(b)@),
        elem_ok(r@, final(b)@.next),
        forall|env: Env| #[trigger]
            netlist::bits(final(b)@, env, r@) == (if netlist::value(old(b)@, env, bit as int) {
                netlist::bits(old(b)@, env, x@)
            } else {
                field::zero128()
            }),
{
    let ghost first = b@;
    let mut r: Elem = Vec::with_capacity(128);
    proof {
        netlist::lemma_ext_refl(first);
    }
    while r.len() < 128
        invariant
            b.inv(),
            netlist::ext(first, b@),
            bit < first.next,
            elem_ok(x@, first.next),
            r@.len() <= 128,
            netlist::below(r@, b@.next),
            forall|env: Env, v: int|
                0 <= v < r@.len() ==> #[trigger] netlist::value(b@, env, r@[v] as int) == (
                netlist::value(first, env, bit as int) && netlist::value(
                    first,
                    env,
                    x@[v] as int,
                )),
        decreases 128 - r@.len(),
    {
        let k = r.len();
        let ghost c0 = b@;
        let ghost r0 = r@;
        let w = b.and_wire(bit, x[k]);
        r.push(w);
        proof {
            assert forall|env: Env, v: int|
                0 <= v < r@.len() implies #[trigger] netlist::value(b@, env, r@[v] as int) == (
            netlist::value(first, env, bit as int) && netlist::value(
                first,
                env,
                x@[v] as int,
            )) by {
                if v < k {
                    assert(r@[v] == r0[v]);
                    assert(netlist::value(c0, env, r0[v] as int) == netlist::value(
                        b@,
                        env,
                        r0[v] as int,
                    ));
                }
            }
        }
    }
    proof {
        field::lemma_level_128();
        assert forall|env: Env| #[trigger]
            netlist::bits(b@, env, r@) == (if netlist::value(first, env, bit as int) {
                netlist::bits(first, env, x@)
            } else {
                field::zero128()
            }) by {
            let want = if netlist::value(first, env, bit as int) {
                netlist::bits(first, env, x@)
            } else {
                field::zero128()
            };
            assert forall|v: int| 0 <= v < 128 implies netlist::bits(b@, env, r@)[v]
                == want[v] by {
                assert(netlist::value(b@, env, r@[v] as int) == (netlist::value(
                    first,
                    env,
                    bit as int,
                ) && netlist::value(first, env, x@[v] as int)));
            }
            assert(netlist::bits(b@, env, r@) =~= want);
        }
    }
    r
}

impl Tensor {
    pub(crate) fn zero<T: CircuitTrait>(b: &mut T) -> (t: Self)
        requires
            old(b).inv(),
        ensures
            final(b).inv(),
            final(b)@ == old(b)@,
            t.wf(final(b)@.next),
            forall|env: Env| #[trigger] t.model(final(b)@, env) == stark_model::tensor_zero(),
    {
        let ghost first = b@;
        let mut rows: Vec<Elem> = Vec::new();
        while rows.len() < DIM
            invariant
                b.inv(),
                b@ == first,
                rows@.len() <= DIM,
                elems_ok(rows@, first.next),
                forall|env: Env, i: int|
                    0 <= i < rows@.len() ==> #[trigger] netlist::bits(first, env, rows@[i]@)
                        == field::zero128(),
            decreases DIM - rows@.len(),
        {
            let ghost rows0 = rows@;
            let z = wires::zero_elem(b);
            rows.push(z);
            proof {
                assert forall|env: Env, i: int|
                    0 <= i < rows@.len() implies #[trigger] netlist::bits(first, env, rows@[i]@)
                    == field::zero128() by {
                    if i < rows0.len() {
                        assert(rows@[i] == rows0[i]);
                        assert(netlist::bits(first, env, rows0[i]@) == field::zero128());
                    }
                }
            }
        }
        let t = Tensor { rows };
        proof {
            assert forall|env: Env| #[trigger]
                t.model(first, env) == stark_model::tensor_zero() by {
                assert forall|i: int| 0 <= i < DIM implies t.model(first, env)[i]
                    == stark_model::tensor_zero()[i] by {
                    assert(netlist::bits(first, env, t.rows@[i]@) == field::zero128());
                }
                assert(t.model(first, env) =~= stark_model::tensor_zero());
            }
        }
        t
    }

    pub(crate) fn one<T: CircuitTrait>(b: &mut T) -> (t: Self)
        requires
            old(b).inv(),
        ensures
            final(b).inv(),
            final(b)@ == old(b)@,
            t.wf(final(b)@.next),
            forall|env: Env| #[trigger] t.model(final(b)@, env) == stark_model::tensor_one(),
    {
        let ghost first = b@;
        let z = Tensor::zero(b);
        let one = wires::one_elem(b);
        let ghost ow = one@;
        let mut rows = z.rows;
        let ghost rows0 = rows@;
        rows.set(0, one);
        let t = Tensor { rows };
        proof {
            assert forall|i: int| 0 <= i < t.rows@.len() implies (#[trigger] t.rows@[i])@.len()
                == 128 && netlist::below(t.rows@[i]@, first.next) by {
                if i > 0 {
                    assert(t.rows@[i] == rows0[i]);
                    assert(rows0[i]@.len() == 128 && netlist::below(rows0[i]@, first.next));
                }
            }
            assert forall|env: Env| #[trigger]
                t.model(first, env) == stark_model::tensor_one() by {
                assert(z.model(first, env) == stark_model::tensor_zero());
                assert forall|i: int| 0 <= i < DIM implies t.model(first, env)[i]
                    == stark_model::tensor_one()[i] by {
                    if i > 0 {
                        assert(t.rows@[i] == rows0[i]);
                        assert(netlist::words(first, env, rows0)[i] == stark_model::tensor_zero(
                        )[i]);
                    } else {
                        assert(netlist::bits(first, env, ow) == field::one128());
                    }
                }
                assert(t.model(first, env) =~= stark_model::tensor_one());
            }
        }
        t
    }

    pub(crate) fn from_rows(rows: &Vec<Elem>) -> (t: Self)
        requires
            rows@.len() == DIM,
        ensures
            t.rows@.len() == DIM,
            forall|n: nat| elems_ok(rows@, n) ==> #[trigger] t.wf(n),
            forall|c: Netlist, env: Env| #[trigger]
                t.model(c, env) == netlist::words(c, env, rows@),
    {
        let copy = wires::copy_elems(rows.as_slice());
        let t = Tensor { rows: copy };
        proof {
            assert forall|n: nat| elems_ok(rows@, n) implies #[trigger] t.wf(n) by {
                assert(netlist::all_below(t.rows@, 128, n));
            }
        }
        t
    }

    /// The transposition.
    pub(crate) fn columns(&self, Ghost(n): Ghost<nat>) -> (cols: Vec<Elem>)
        requires
            self.wf(n),
        ensures
            cols@.len() == DIM,
            elems_ok(cols@, n),
            forall|c: Netlist, env: Env| #[trigger]
                netlist::words(c, env, cols@) == stark_model::transposed(self.model(c, env)),
    {
        assert forall|i: int| 0 <= i < DIM implies (#[trigger] self.rows@[i])@.len() == 128 by {
            assert(elem_ok(self.rows@[i]@, n));
        }
        transpose(&self.rows)
    }

    /// `a (x) x`: row `u` is `x` gated by bit `u` of `a`.
    pub(crate) fn exterior<T: CircuitTrait>(b: &mut T, a: &Elem, x: &Elem) -> (t: Self)
        requires
            old(b).inv(),
            elem_ok(a@, old(b)@.next),
            elem_ok(x@, old(b)@.next),
        ensures
            final(b).inv(),
            netlist::ext(old(b)@, final(b)@),
            t.wf(final(b)@.next),
            forall|env: Env| #[trigger]
                t.model(final(b)@, env) == stark_model::exterior(
                    netlist::bits(old(b)@, env, a@),
                    netlist::bits(old(b)@, env, x@),
                ),
    {
        let ghost first = b@;
        let mut rows: Vec<Elem> = Vec::new();
        proof {
            netlist::lemma_ext_refl(first);
        }
        while rows.len() < DIM
            invariant
                b.inv(),
                netlist::ext(first, b@),
                elem_ok(a@, first.next),
                elem_ok(x@, first.next),
                rows@.len() <= DIM,
                elems_ok(rows@, b@.next),
                forall|env: Env, u: int|
                    0 <= u < rows@.len() ==> #[trigger] netlist::bits(b@, env, rows@[u]@) == (
                    if netlist::value(first, env, a@[u] as int) {
                        netlist::bits(first, env, x@)
                    } else {
                        field::zero128()
                    }),
            decreases DIM - rows@.len(),
        {
            let k = rows.len();
            let ghost c0 = b@;
            let ghost rows0 = rows@;
            let r = gated(b, a[k], x);
            rows.push(r);
            proof {
                assert forall|env: Env, u: int|
                    0 <= u < rows@.len() implies #[trigger] netlist::bits(b@, env, rows@[u]@) == (
                if netlist::value(first, env, a@[u] as int) {
                    netlist::bits(first, env, x@)
                } else {
                    field::zero128()
                }) by {
                    if u < k {
                        assert(rows@[u] == rows0[u]);
                        assert(elem_ok(rows0[u]@, c0.next));
                        assert(netlist::bits(c0, env, rows0[u]@) == netlist::bits(
                            b@,
                            env,
                            rows0[u]@,
                        ));
                    } else {
                        assert(netlist::bits(c0, env, x@) == netlist::bits(first, env, x@));
                        assert(netlist::value(c0, env, a@[u] as int) == netlist::value(
                            first,
                            env,
                            a@[u] as int,
                        ));
                    }
                }
            }
        }
        let t = Tensor { rows };
        proof {
            assert forall|env: Env| #[trigger]
                t.model(b@, env) == stark_model::exterior(
                    netlist::bits(first, env, a@),
                    netlist::bits(first, env, x@),
                ) by {
                let want = stark_model::exterior(
                    netlist::bits(first, env, a@),
                    netlist::bits(first, env, x@),
                );
                assert forall|u: int| 0 <= u < DIM implies t.model(b@, env)[u] == want[u] by {
                    assert(netlist::bits(b@, env, t.rows@[u]@) == (if netlist::value(
                        first,
                        env,
                        a@[u] as int,
                    ) {
                        netlist::bits(first, env, x@)
                    } else {
                        field::zero128()
                    }));
                }
                assert(t.model(b@, env) =~= want);
            }
        }
        t
    }

    pub(crate) fn add<T: CircuitTrait>(&self, b: &mut T, other: &Self) -> (t: Self)
        requires
            old(b).inv(),
            self.wf(old(b)@.next),
            other.wf(old(b)@.next),
        ensures
            final(b).inv(),
            netlist::ext(old(b)@, final(b)@),
            t.wf(final(b)@.next),
            forall|env: Env| #[trigger]
                t.model(final(b)@, env) == stark_model::tensor_plus(
                    self.model(old(b)@, env),
                    other.model(old(b)@, env),
                ),
    {
        let ghost first = b@;
        let mut rows: Vec<Elem> = Vec::new();
        proof {
            netlist::lemma_ext_refl(first);
        }
        while rows.len() < DIM
            invariant
                b.inv(),
                netlist::ext(first, b@),
                self.wf(first.next),
                other.wf(first.next),
                rows@.len() <= DIM,
                elems_ok(rows@, b@.next),
                forall|env: Env, u: int|
                    0 <= u < rows@.len() ==> #[trigger] netlist::bits(b@, env, rows@[u]@)
                        == field::plus(
                        netlist::bits(first, env, self.rows@[u]@),
                        netlist::bits(first, env, other.rows@[u]@),
                    ),
            decreases DIM - rows@.len(),
        {
            let k = rows.len();
            let ghost c0 = b@;
            let ghost rows0 = rows@;
            assert(elem_ok(self.rows@[k as int]@, first.next));
            assert(elem_ok(other.rows@[k as int]@, first.next));
            let r = crate::whir_gc::wires::add(b, &self.rows[k], &other.rows[k]);
            rows.push(r);
            proof {
                assert forall|env: Env, u: int|
                    0 <= u < rows@.len() implies #[trigger] netlist::bits(b@, env, rows@[u]@)
                    == field::plus(
                    netlist::bits(first, env, self.rows@[u]@),
                    netlist::bits(first, env, other.rows@[u]@),
                ) by {
                    if u < k {
                        assert(rows@[u] == rows0[u]);
                        assert(elem_ok(rows0[u]@, c0.next));
                        assert(netlist::bits(c0, env, rows0[u]@) == netlist::bits(
                            b@,
                            env,
                            rows0[u]@,
                        ));
                    } else {
                        assert(netlist::bits(c0, env, self.rows@[u]@) == netlist::bits(
                            first,
                            env,
                            self.rows@[u]@,
                        ));
                        assert(netlist::bits(c0, env, other.rows@[u]@) == netlist::bits(
                            first,
                            env,
                            other.rows@[u]@,
                        ));
                    }
                }
            }
        }
        let t = Tensor { rows };
        proof {
            assert forall|env: Env| #[trigger]
                t.model(b@, env) == stark_model::tensor_plus(
                    self.model(first, env),
                    other.model(first, env),
                ) by {
                let want = stark_model::tensor_plus(
                    self.model(first, env),
                    other.model(first, env),
                );
                assert forall|u: int| 0 <= u < DIM implies t.model(b@, env)[u] == want[u] by {
                    assert(netlist::bits(b@, env, t.rows@[u]@) == field::plus(
                        netlist::bits(first, env, self.rows@[u]@),
                        netlist::bits(first, env, other.rows@[u]@),
                    ));
                }
                assert(t.model(b@, env) =~= want);
            }
        }
        t
    }

    /// `(1 + a (x) 1 + 1 (x) y)` times the tensor.
    pub(crate) fn mul_equality_factor<T: CircuitTrait>(&self, b: &mut T, a: &Elem, y: &Elem) -> (t:
        Self)
        requires
            old(b).inv(),
            self.wf(old(b)@.next),
            elem_ok(a@, old(b)@.next),
            elem_ok(y@, old(b)@.next),
        ensures
            final(b).inv(),
            netlist::ext(old(b)@, final(b)@),
            t.wf(final(b)@.next),
            forall|env: Env| #[trigger]
                t.model(final(b)@, env) == stark_model::mul_equality_factor(
                    self.model(old(b)@, env),
                    netlist::bits(old(b)@, env, a@),
                    netlist::bits(old(b)@, env, y@),
                ),
    {
        let ghost b0 = b@;
        let cols = self.columns(Ghost(b0.next));
        let scaled_cols = scaled(b, &cols, a);
        let ghost b1 = b@;
        assert forall|i: int| 0 <= i < DIM implies (#[trigger] scaled_cols@[i])@.len() == 128 by {
            assert(elem_ok(scaled_cols@[i]@, b1.next));
        }
        let by_columns = Tensor { rows: transpose(&scaled_cols) };
        let by_rows = Tensor { rows: scaled(b, &self.rows, y) };
        let ghost b2 = b@;
        let half = self.add(b, &by_columns);
        let ghost b3 = b@;
        let t = half.add(b, &by_rows);
        proof {
            assert forall|env: Env| #[trigger]
                t.model(b@, env) == stark_model::mul_equality_factor(
                    self.model(b0, env),
                    netlist::bits(b0, env, a@),
                    netlist::bits(b0, env, y@),
                ) by {
                let m = self.model(b0, env);
                let ae = netlist::bits(b0, env, a@);
                let ye = netlist::bits(b0, env, y@);
                assert(netlist::words(b0, env, cols@) == stark_model::transposed(m));
                assert(netlist::words(b1, env, scaled_cols@) == stark_model::scale_rows(
                    stark_model::transposed(m),
                    ae,
                ));
                assert(by_columns.model(b1, env) == stark_model::scale_columns(m, ae));
                assert(by_columns.model(b2, env) == by_columns.model(b1, env));
                assert(self.model(b1, env) == m);
                assert(self.model(b2, env) == m);
                assert(netlist::bits(b1, env, y@) == ye);
                assert(by_rows.model(b2, env) == stark_model::scale_rows(m, ye));
                assert(by_rows.model(b3, env) == by_rows.model(b2, env));
            }
        }
        t
    }

    pub(crate) fn batch_rows<T: CircuitTrait>(&self, b: &mut T, weights: &[Elem]) -> (v: Elem)
        requires
            old(b).inv(),
            self.wf(old(b)@.next),
            weights@.len() >= DIM,
            elems_ok(weights@, old(b)@.next),
        ensures
            final(b).inv(),
            netlist::ext(old(b)@, final(b)@),
            elem_ok(v@, final(b)@.next),
            forall|env: Env| #[trigger]
                netlist::bits(final(b)@, env, v@) == stark_model::dot(
                    self.model(old(b)@, env),
                    netlist::words(old(b)@, env, weights@),
                ),
    {
        dot(b, self.rows.as_slice(), weights)
    }
}

/// `prod (1 + a_i (x) 1 + 1 (x) y_i)` times a tensor.
pub(crate) fn equality_factors<T: CircuitTrait>(b: &mut T, t: Tensor, a: &[Elem], y: &[Elem]) -> (r:
    Tensor)
    requires
        old(b).inv(),
        t.wf(old(b)@.next),
        a@.len() == y@.len(),
        elems_ok(a@, old(b)@.next),
        elems_ok(y@, old(b)@.next),
    ensures
        final(b).inv(),
        netlist::ext(old(b)@, final(b)@),
        r.wf(final(b)@.next),
        forall|env: Env| #[trigger]
            r.model(final(b)@, env) == stark_model::equality_factors(
                t.model(old(b)@, env),
                netlist::words(old(b)@, env, a@),
                netlist::words(old(b)@, env, y@),
            ),
{
    let ghost first = b@;
    let ghost t0 = t;
    let mut r = t;
    let mut k: usize = 0;
    proof {
        netlist::lemma_ext_refl(first);
        assert forall|env: Env| #[trigger]
            r.model(b@, env) == stark_model::equality_factors(
                t0.model(first, env),
                netlist::words(first, env, a@).take(0),
                netlist::words(first, env, y@).take(0),
            ) by {
            assert(netlist::words(first, env, a@).take(0) =~= Seq::<Elt>::empty());
        }
    }
    while k < a.len()
        invariant
            b.inv(),
            netlist::ext(first, b@),
            k <= a@.len() == y@.len(),
            elems_ok(a@, first.next),
            elems_ok(y@, first.next),
            r.wf(b@.next),
            forall|env: Env| #[trigger]
                r.model(b@, env) == stark_model::equality_factors(
                    t0.model(first, env),
                    netlist::words(first, env, a@).take(k as int),
                    netlist::words(first, env, y@).take(k as int),
                ),
        decreases a@.len() - k,
    {
        let ghost c0 = b@;
        let ghost r0 = r;
        assert(elem_ok(a@[k as int]@, first.next));
        assert(elem_ok(y@[k as int]@, first.next));
        r = r.mul_equality_factor(b, &a[k], &y[k]);
        proof {
            assert forall|env: Env| #[trigger]
                r.model(b@, env) == stark_model::equality_factors(
                    t0.model(first, env),
                    netlist::words(first, env, a@).take(k + 1),
                    netlist::words(first, env, y@).take(k + 1),
                ) by {
                let am = netlist::words(first, env, a@);
                let ym = netlist::words(first, env, y@);
                assert(am.take(k + 1).drop_last() =~= am.take(k as int));
                assert(ym.take(k + 1).drop_last() =~= ym.take(k as int));
                assert(am.take(k + 1).last() == netlist::bits(first, env, a@[k as int]@));
                assert(ym.take(k + 1).last() == netlist::bits(first, env, y@[k as int]@));
                assert(netlist::bits(c0, env, a@[k as int]@) == am[k as int]);
                assert(netlist::bits(c0, env, y@[k as int]@) == ym[k as int]);
                assert(r0.model(c0, env) == stark_model::equality_factors(
                    t0.model(first, env),
                    am.take(k as int),
                    ym.take(k as int),
                ));
            }
        }
        k = k + 1;
    }
    proof {
        assert forall|env: Env| #[trigger]
            r.model(b@, env) == stark_model::equality_factors(
                t0.model(first, env),
                netlist::words(first, env, a@),
                netlist::words(first, env, y@),
            ) by {
            let am = netlist::words(first, env, a@);
            let ym = netlist::words(first, env, y@);
            assert(am.take(k as int) =~= am);
            assert(ym.take(k as int) =~= ym);
        }
    }
    r
}

/// The equality of two points, as a tensor.
pub(crate) fn equality_element<T: CircuitTrait>(b: &mut T, a: &[Elem], y: &[Elem]) -> (r: Tensor)
    requires
        old(b).inv(),
        a@.len() == y@.len(),
        elems_ok(a@, old(b)@.next),
        elems_ok(y@, old(b)@.next),
    ensures
        final(b).inv(),
        netlist::ext(old(b)@, final(b)@),
        r.wf(final(b)@.next),
        forall|env: Env| #[trigger]
            r.model(final(b)@, env) == stark_model::equality_element(
                netlist::words(old(b)@, env, a@),
                netlist::words(old(b)@, env, y@),
            ),
{
    let one = Tensor::one(b);
    equality_factors(b, one, a, y)
}

/// The successor of a point, as a tensor.
#[verifier::rlimit(40)]
pub(crate) fn successor_element<T: CircuitTrait>(b: &mut T, point: &[Elem], other: &[Elem]) -> (r:
    Tensor)
    requires
        old(b).inv(),
        point@.len() == other@.len(),
        elems_ok(point@, old(b)@.next),
        elems_ok(other@, old(b)@.next),
    ensures
        final(b).inv(),
        netlist::ext(old(b)@, final(b)@),
        r.wf(final(b)@.next),
        forall|env: Env| #[trigger]
            r.model(final(b)@, env) == stark_model::successor_element(
                netlist::words(old(b)@, env, point@),
                netlist::words(old(b)@, env, other@),
            ),
{
    let ghost first = b@;
    let one = wires::one_elem(b);
    let mut done = Tensor::zero(b);
    let mut carry_a = wires::copy_elem(&one);
    let mut carry_b = wires::copy_elem(&one);
    let n = point.len();
    let mut k: usize = n;
    let ghost from = |env: Env, k: int|
        stark_model::successor_from(
            netlist::words(first, env, point@),
            netlist::words(first, env, other@),
            k,
        );
    proof {
        netlist::lemma_ext_refl(first);
        assert forall|env: Env| #[trigger] done.model(b@, env) == from(env, n as int).0 by {}
        assert forall|env: Env| #[trigger]
            netlist::bits(b@, env, carry_a@) == from(env, n as int).1 by {}
        assert forall|env: Env| #[trigger]
            netlist::bits(b@, env, carry_b@) == from(env, n as int).2 by {}
    }
    while k > 0
        invariant
            b.inv(),
            netlist::ext(first, b@),
            n == point@.len() == other@.len(),
            k <= n,
            elems_ok(point@, first.next),
            elems_ok(other@, first.next),
            elem_ok(one@, first.next),
            forall|env: Env| #[trigger] netlist::bits(first, env, one@) == field::one128(),
            from == (|env: Env, k: int|
                stark_model::successor_from(
                    netlist::words(first, env, point@),
                    netlist::words(first, env, other@),
                    k,
                )),
            done.wf(b@.next),
            elem_ok(carry_a@, b@.next),
            elem_ok(carry_b@, b@.next),
            forall|env: Env| #[trigger] done.model(b@, env) == from(env, k as int).0,
            forall|env: Env| #[trigger] netlist::bits(b@, env, carry_a@) == from(env, k as int).1,
            forall|env: Env| #[trigger] netlist::bits(b@, env, carry_b@) == from(env, k as int).2,
        decreases k,
    {
        k = k - 1;
        let ghost c0 = b@;
        let ghost done0 = done;
        let ghost ca0 = carry_a@;
        let ghost cb0 = carry_b@;
        let ghost aw = point@[k as int]@;
        let ghost yw = other@[k as int]@;
        assert(elem_ok(aw, first.next));
        assert(elem_ok(yw, first.next));
        done = done.mul_equality_factor(b, &point[k], &other[k]);
        let ghost done1 = done;
        let ghost c1 = b@;
        let na = crate::whir_gc::wires::add(b, &one, &point[k]);
        let ghost c2 = b@;
        let left = crate::whir_gc::wires::mul(b, &carry_a, &na);
        let ghost c3 = b@;
        let right = crate::whir_gc::wires::mul(b, &carry_b, &other[k]);
        let ghost c4 = b@;
        let ext = Tensor::exterior(b, &left, &right);
        let ghost c5 = b@;
        done = done.add(b, &ext);
        let ghost c6 = b@;
        carry_a = crate::whir_gc::wires::mul(b, &carry_a, &point[k]);
        let ghost c7 = b@;
        let ny = crate::whir_gc::wires::add(b, &one, &other[k]);
        let ghost c8 = b@;
        carry_b = crate::whir_gc::wires::mul(b, &carry_b, &ny);
        proof {
            assert forall|env: Env| true implies {
                &&& #[trigger] done.model(b@, env) == from(env, k as int).0
                &&& netlist::bits(b@, env, carry_a@) == from(env, k as int).1
                &&& netlist::bits(b@, env, carry_b@) == from(env, k as int).2
            } by {
                let a = netlist::bits(first, env, aw);
                let y = netlist::bits(first, env, yw);
                let o = field::one128();
                assert(netlist::words(first, env, point@)[k as int] == a);
                assert(netlist::words(first, env, other@)[k as int] == y);
                assert(done0.model(c0, env) == from(env, k + 1).0);
                assert(netlist::bits(c0, env, ca0) == from(env, k + 1).1);
                assert(netlist::bits(c0, env, cb0) == from(env, k + 1).2);
                let ca = from(env, k + 1).1;
                let cb = from(env, k + 1).2;
                assert(netlist::bits(c0, env, aw) == a && netlist::bits(c0, env, yw) == y);
                let stepped = stark_model::mul_equality_factor(from(env, k + 1).0, a, y);
                assert(done1.model(c1, env) == stepped);
                assert(netlist::bits(c1, env, one@) == o);
                assert(netlist::bits(c1, env, aw) == a);
                assert(netlist::bits(c2, env, na@) == field::plus(o, a));
                assert(netlist::bits(c2, env, ca0) == ca);
                assert(netlist::bits(c3, env, left@) == field::times(ca, field::plus(o, a)));
                assert(netlist::bits(c3, env, cb0) == cb);
                assert(netlist::bits(c3, env, yw) == y);
                assert(netlist::bits(c4, env, right@) == field::times(cb, y));
                assert(netlist::bits(c4, env, left@) == netlist::bits(c3, env, left@));
                assert(done1.model(c5, env) == stepped);
                assert(done.model(b@, env) == done.model(c6, env));
                assert(netlist::bits(c6, env, ca0) == ca);
                assert(netlist::bits(c6, env, aw) == a);
                assert(netlist::bits(c7, env, carry_a@) == field::times(ca, a));
                assert(netlist::bits(b@, env, carry_a@) == netlist::bits(c7, env, carry_a@));
                assert(netlist::bits(c7, env, one@) == o && netlist::bits(c7, env, yw) == y);
                assert(netlist::bits(c8, env, ny@) == field::plus(o, y));
                assert(netlist::bits(c8, env, cb0) == cb);
            }
            assert forall|env: Env| #[trigger]
                netlist::bits(b@, env, carry_a@) == from(env, k as int).1 by {
                assert(done.model(b@, env) == from(env, k as int).0);
            }
            assert forall|env: Env| #[trigger]
                netlist::bits(b@, env, carry_b@) == from(env, k as int).2 by {
                assert(done.model(b@, env) == from(env, k as int).0);
            }
        }
    }
    done
}

// ---------------------------------------------------------------------------
// The constraints.
// ---------------------------------------------------------------------------

/// The row selectors on wires.
pub struct Boundary {
    pub first: Elem,
    pub last: Elem,
    pub transition: Elem,
}

impl Boundary {
    pub open spec fn wf(self, n: nat) -> bool {
        elem_ok(self.first@, n) && elem_ok(self.last@, n) && elem_ok(self.transition@, n)
    }

    pub open spec fn model(self, c: Netlist, env: Env) -> BoundaryM {
        BoundaryM {
            first: netlist::bits(c, env, self.first@),
            last: netlist::bits(c, env, self.last@),
            transition: netlist::bits(c, env, self.transition@),
        }
    }

    /// The row selectors at a point.
    pub(crate) fn at<T: CircuitTrait>(b: &mut T, point: &[Elem]) -> (r: Self)
        requires
            old(b).inv(),
            elems_ok(point@, old(b)@.next),
        ensures
            final(b).inv(),
            netlist::ext(old(b)@, final(b)@),
            r.wf(final(b)@.next),
            forall|env: Env| #[trigger]
                r.model(final(b)@, env) == stark_model::boundary_at(
                    netlist::words(old(b)@, env, point@),
                ),
    {
        let ghost b0 = b@;
        let one = wires::one_elem(b);
        let mut complements: Vec<Elem> = Vec::new();
        proof {
            netlist::lemma_ext_refl(b0);
        }
        while complements.len() < point.len()
            invariant
                b.inv(),
                netlist::ext(b0, b@),
                elem_ok(one@, b0.next),
                forall|env: Env| #[trigger] netlist::bits(b0, env, one@) == field::one128(),
                elems_ok(point@, b0.next),
                complements@.len() <= point@.len(),
                elems_ok(complements@, b@.next),
                forall|env: Env, i: int|
                    0 <= i < complements@.len() ==> #[trigger] netlist::bits(
                        b@,
                        env,
                        complements@[i]@,
                    ) == field::plus(field::one128(), netlist::bits(b0, env, point@[i]@)),
            decreases point@.len() - complements@.len(),
        {
            let k = complements.len();
            let ghost c0 = b@;
            let ghost x0 = complements@;
            assert(elem_ok(point@[k as int]@, b0.next));
            let x = crate::whir_gc::wires::add(b, &one, &point[k]);
            complements.push(x);
            proof {
                assert forall|env: Env, i: int|
                    0 <= i < complements@.len() implies #[trigger] netlist::bits(
                    b@,
                    env,
                    complements@[i]@,
                ) == field::plus(field::one128(), netlist::bits(b0, env, point@[i]@)) by {
                    if i < k {
                        assert(complements@[i] == x0[i]);
                        assert(elem_ok(x0[i]@, c0.next));
                        assert(netlist::bits(c0, env, x0[i]@) == netlist::bits(b@, env, x0[i]@));
                    } else {
                        assert(netlist::bits(c0, env, one@) == netlist::bits(b0, env, one@));
                        assert(netlist::bits(c0, env, point@[i]@) == netlist::bits(
                            b0,
                            env,
                            point@[i]@,
                        ));
                    }
                }
            }
        }
        let ghost b1 = b@;
        let first = product(b, complements.as_slice());
        let ghost b2 = b@;
        let last = product(b, point);
        let ghost b3 = b@;
        let transition = crate::whir_gc::wires::add(b, &one, &last);
        let r = Boundary { first, last, transition };
        proof {
            assert forall|env: Env| #[trigger]
                r.model(b@, env) == stark_model::boundary_at(
                    netlist::words(b0, env, point@),
                ) by {
                let p = netlist::words(b0, env, point@);
                assert forall|i: int| 0 <= i < p.len() implies netlist::words(
                    b1,
                    env,
                    complements@,
                )[i] == stark_model::complements(p)[i] by {
                    assert(netlist::bits(b1, env, complements@[i]@) == field::plus(
                        field::one128(),
                        netlist::bits(b0, env, point@[i]@),
                    ));
                }
                assert(netlist::words(b1, env, complements@) =~= stark_model::complements(p));
                assert(netlist::words(b2, env, point@) == p);
                assert(netlist::bits(b3, env, one@) == netlist::bits(b0, env, one@));
                assert(netlist::bits(b@, env, first@) == netlist::bits(b2, env, first@));
                assert(netlist::bits(b@, env, last@) == netlist::bits(b3, env, last@));
            }
        }
        r
    }
}

/// Every expression's value on wires, from the opened rows.
#[verifier::rlimit(40)]
fn eval_nodes<T: CircuitTrait>(
    b: &mut T,
    nodes: &Vec<Node>,
    local: &[Elem],
    next: &[Elem],
    boundary: &Boundary,
) -> (out: Vec<Elem>)
    requires
        old(b).inv(),
        forall|i: int|
            0 <= i < nodes@.len() ==> (#[trigger] nodes@[i]).well_placed(i, local@.len()),
        local@.len() == next@.len(),
        elems_ok(local@, old(b)@.next),
        elems_ok(next@, old(b)@.next),
        boundary.wf(old(b)@.next),
    ensures
        final(b).inv(),
        netlist::ext(old(b)@, final(b)@),
        out@.len() == nodes@.len(),
        elems_ok(out@, final(b)@.next),
        forall|env: Env, i: int|
            0 <= i < nodes@.len() ==> #[trigger] netlist::bits(final(b)@, env, out@[i]@)
                == stark_model::expr_value(
                nodes@,
                netlist::words(old(b)@, env, local@),
                netlist::words(old(b)@, env, next@),
                boundary.model(old(b)@, env),
                i as nat,
            ),
{
    let ghost first = b@;
    let ghost value = |env: Env, i: int|
        stark_model::expr_value(
            nodes@,
            netlist::words(first, env, local@),
            netlist::words(first, env, next@),
            boundary.model(first, env),
            i as nat,
        );
    let mut out: Vec<Elem> = Vec::new();
    proof {
        netlist::lemma_ext_refl(first);
    }
    while out.len() < nodes.len()
        invariant
            b.inv(),
            netlist::ext(first, b@),
            forall|i: int|
                0 <= i < nodes@.len() ==> (#[trigger] nodes@[i]).well_placed(i, local@.len()),
            local@.len() == next@.len(),
            elems_ok(local@, first.next),
            elems_ok(next@, first.next),
            boundary.wf(first.next),
            value == (|env: Env, i: int|
                stark_model::expr_value(
                    nodes@,
                    netlist::words(first, env, local@),
                    netlist::words(first, env, next@),
                    boundary.model(first, env),
                    i as nat,
                )),
            out@.len() <= nodes@.len(),
            elems_ok(out@, b@.next),
            forall|env: Env, i: int|
                0 <= i < out@.len() ==> #[trigger] netlist::bits(b@, env, out@[i]@) == value(
                    env,
                    i,
                ),
        decreases nodes@.len() - out@.len(),
    {
        let k = out.len();
        let ghost c0 = b@;
        let ghost out0 = out@;
        proof {
            netlist::lemma_ext_refl(c0);
            assert(nodes@[k as int].well_placed(k as int, local@.len()));
            assert forall|i: int| 0 <= i < local@.len() implies elem_ok(
                #[trigger] local@[i]@,
                c0.next,
            ) && elem_ok(next@[i]@, c0.next) by {
                assert(elem_ok(local@[i]@, first.next));
                assert(elem_ok(next@[i]@, first.next));
            }
            assert forall|i: int| 0 <= i < k implies elem_ok(#[trigger] out@[i]@, c0.next) by {}
        }
        let v = match nodes[k] {
            Node::Local(i) => wires::copy_elem(&local[i]),
            Node::Next(i) => {
                assert(elem_ok(local@[i as int]@, c0.next));
                wires::copy_elem(&next[i])
            },
            Node::IsFirstRow => wires::copy_elem(&boundary.first),
            Node::IsLastRow => wires::copy_elem(&boundary.last),
            Node::IsTransition => wires::copy_elem(&boundary.transition),
            Node::Constant(c) => wires::constant(b, c),
            Node::Add(x, y) => crate::whir_gc::wires::add(b, &out[x], &out[y]),
            Node::Sub(x, y) => crate::whir_gc::wires::add(b, &out[x], &out[y]),
            Node::Neg(x) => wires::copy_elem(&out[x]),
            Node::Mul(x, y) => crate::whir_gc::wires::mul(b, &out[x], &out[y]),
        };
        let ghost vw = v@;
        out.push(v);
        proof {
            assert forall|env: Env| true implies #[trigger] netlist::bits(b@, env, vw) == value(
                env,
                k as int,
            ) by {
                match nodes@[k as int] {
                    Node::Local(i) => {
                        assert(netlist::bits(c0, env, local@[i as int]@) == netlist::words(
                            first,
                            env,
                            local@,
                        )[i as int]);
                    },
                    Node::Next(i) => {
                        assert(elem_ok(next@[i as int]@, first.next));
                        assert(netlist::bits(c0, env, next@[i as int]@) == netlist::words(
                            first,
                            env,
                            next@,
                        )[i as int]);
                    },
                    Node::IsFirstRow => {},
                    Node::IsLastRow => {},
                    Node::IsTransition => {},
                    Node::Constant(c) => {},
                    Node::Add(x, y) => {
                        assert(netlist::bits(c0, env, out0[x as int]@) == value(env, x as int));
                        assert(netlist::bits(c0, env, out0[y as int]@) == value(env, y as int));
                    },
                    Node::Sub(x, y) => {
                        assert(netlist::bits(c0, env, out0[x as int]@) == value(env, x as int));
                        assert(netlist::bits(c0, env, out0[y as int]@) == value(env, y as int));
                    },
                    Node::Neg(x) => {
                        assert(netlist::bits(c0, env, out0[x as int]@) == value(env, x as int));
                    },
                    Node::Mul(x, y) => {
                        assert(netlist::bits(c0, env, out0[x as int]@) == value(env, x as int));
                        assert(netlist::bits(c0, env, out0[y as int]@) == value(env, y as int));
                    },
                }
            }
            assert forall|i: int| 0 <= i < out@.len() implies (#[trigger] out@[i])@.len() == 128
                && netlist::below(out@[i]@, b@.next) by {
                if i < k {
                    assert(out@[i] == out0[i]);
                    assert(elem_ok(out0[i]@, c0.next));
                }
            }
            assert forall|env: Env, i: int|
                0 <= i < out@.len() implies #[trigger] netlist::bits(b@, env, out@[i]@) == value(
                env,
                i,
            ) by {
                if i < k {
                    assert(out@[i] == out0[i]);
                    assert(elem_ok(out0[i]@, c0.next));
                    assert(netlist::bits(c0, env, out0[i]@) == value(env, i));
                } else {
                    assert(netlist::bits(b@, env, vw) == value(env, k as int));
                }
            }
        }
    }
    out
}

/// The alpha-batched constraint at the point, Horner over the constraints.
#[verifier::rlimit(40)]
pub(crate) fn air_at<T: CircuitTrait>(
    b: &mut T,
    air: &Air,
    local: &[Elem],
    next: &[Elem],
    boundary: &Boundary,
    alpha: &Elem,
) -> (g: Elem)
    requires
        old(b).inv(),
        air.wf(local@.len()),
        local@.len() == next@.len(),
        elems_ok(local@, old(b)@.next),
        elems_ok(next@, old(b)@.next),
        boundary.wf(old(b)@.next),
        elem_ok(alpha@, old(b)@.next),
    ensures
        final(b).inv(),
        netlist::ext(old(b)@, final(b)@),
        elem_ok(g@, final(b)@.next),
        forall|env: Env| #[trigger]
            netlist::bits(final(b)@, env, g@) == stark_model::air_at(
                *air,
                netlist::words(old(b)@, env, local@),
                netlist::words(old(b)@, env, next@),
                boundary.model(old(b)@, env),
                netlist::bits(old(b)@, env, alpha@),
            ),
{
    let ghost first = b@;
    let values = eval_nodes(b, &air.nodes, local, next, boundary);
    let ghost b1 = b@;
    let ghost horner = |env: Env, i: nat|
        stark_model::air_horner(
            *air,
            netlist::words(first, env, local@),
            netlist::words(first, env, next@),
            boundary.model(first, env),
            netlist::bits(first, env, alpha@),
            i,
        );
    let mut acc = wires::zero_elem(b);
    let mut i: usize = 0;
    proof {
        netlist::lemma_ext_refl(b1);
    }
    while i < air.constraints.len()
        invariant
            b.inv(),
            netlist::ext(first, b1),
            netlist::ext(b1, b@),
            air.wf(local@.len()),
            i <= air.constraints@.len(),
            values@.len() == air.nodes@.len(),
            elems_ok(values@, b1.next),
            elem_ok(alpha@, first.next),
            elem_ok(acc@, b@.next),
            horner == (|env: Env, i: nat|
                stark_model::air_horner(
                    *air,
                    netlist::words(first, env, local@),
                    netlist::words(first, env, next@),
                    boundary.model(first, env),
                    netlist::bits(first, env, alpha@),
                    i,
                )),
            forall|env: Env, k: int|
                0 <= k < values@.len() ==> #[trigger] netlist::bits(b1, env, values@[k]@)
                    == stark_model::expr_value(
                    air.nodes@,
                    netlist::words(first, env, local@),
                    netlist::words(first, env, next@),
                    boundary.model(first, env),
                    k as nat,
                ),
            forall|env: Env| #[trigger] netlist::bits(b@, env, acc@) == horner(env, i as nat),
        decreases air.constraints@.len() - i,
    {
        let ghost c0 = b@;
        let ghost acc0 = acc@;
        let c = air.constraints[i];
        assert(air.constraints@[i as int] < air.nodes@.len());
        assert(elem_ok(values@[c as int]@, b1.next));
        let shifted = crate::whir_gc::wires::mul(b, &acc, alpha);
        let ghost c1 = b@;
        acc = crate::whir_gc::wires::add(b, &shifted, &values[c]);
        proof {
            assert forall|env: Env| #[trigger]
                netlist::bits(b@, env, acc@) == horner(env, (i + 1) as nat) by {
                assert(netlist::bits(c0, env, acc0) == horner(env, i as nat));
                assert(netlist::bits(c0, env, alpha@) == netlist::bits(first, env, alpha@));
                assert(netlist::bits(c1, env, values@[c as int]@) == netlist::bits(
                    b1,
                    env,
                    values@[c as int]@,
                ));
            }
        }
        i = i + 1;
    }
    acc
}

} // verus!

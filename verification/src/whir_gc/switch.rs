//! The ring switch: tensors as sums over the hypercube, and honest tensors of a
//! packed polynomial, which close it.
//!
//! A tensor is a sum of exteriors `h(b) (x) y_b` over the vertices `b`. The left
//! factors are what the bit-level point makes of a vertex; the right factors are
//! the packed polynomial's values there, or, in the closing weight, the vertex's
//! own weights at the sumcheck's point.
use super::field;
use super::field::Elt;
use super::honest::{Binary, Poly};
use super::stark::{Config, DIM};
use super::stark_laws;
use super::stark_model;
use super::stark_model::{StarkDraws, StarkM, TensorM};
use crate::multilinear;
use crate::multilinear::Algebra;
use vstd::arithmetic::power2::{lemma_pow2_unfold, pow2};
use vstd::prelude::*;

verus! {

/// The left factor at every vertex.
pub type Left = spec_fn(Seq<bool>) -> Elt;

/// `sum h(s + b) (x) f(front + s + b)` over the vertices `b` of `n` coordinates.
pub open spec fn tensor_sum(h: Left, f: Poly, front: Seq<Elt>, s: Seq<bool>, n: nat) -> TensorM
    decreases n,
{
    if n == 0 {
        stark_model::exterior(h(s), f(front + stark_laws::row_point(s)))
    } else {
        stark_model::tensor_plus(
            tensor_sum(h, f, front, s.push(false), (n - 1) as nat),
            tensor_sum(h, f, front, s.push(true), (n - 1) as nat),
        )
    }
}

/// `sum h(s + b) (x) y eq(b, x)` over the vertices `b` of `x`.
pub open spec fn spread(h: Left, s: Seq<bool>, y: Elt, x: Seq<Elt>) -> TensorM
    decreases x.len(),
{
    if x.len() == 0 {
        stark_model::exterior(h(s), y)
    } else {
        stark_model::tensor_plus(
            spread(
                h,
                s.push(false),
                field::times(y, field::plus(field::one128(), x[0])),
                x.skip(1),
            ),
            spread(h, s.push(true), field::times(y, x[0]), x.skip(1)),
        )
    }
}

/// The first `n` weights, where the element's bits are set.
pub open spec fn chosen(e: Elt, w: Seq<Elt>, n: nat) -> Elt
    decreases n,
{
    if n == 0 {
        field::zero128()
    } else {
        field::plus(
            chosen(e, w, (n - 1) as nat),
            if e[n - 1] {
                w[n - 1]
            } else {
                field::zero128()
            },
        )
    }
}

/// The left factors' batched weights, extended from the vertices.
pub open spec fn extended(h: Left, w: Seq<Elt>, s: Seq<bool>, x: Seq<Elt>) -> Elt
    decreases x.len(),
{
    if x.len() == 0 {
        chosen(h(s), w, 128)
    } else {
        multilinear::lerp::<Binary>(
            extended(h, w, s.push(false), x.skip(1)),
            extended(h, w, s.push(true), x.skip(1)),
            x[0],
        )
    }
}

/// The left factors are elements at the vertices of `n` coordinates.
pub open spec fn left_ok(h: Left, n: nat) -> bool {
    forall|b: Seq<bool>| b.len() == n ==> (#[trigger] h(b)).len() == 128
}

pub open spec fn weights_ok(w: Seq<Elt>) -> bool {
    w.len() == 128 && multilinear::point::<Binary>(w)
}

// ---------------------------------------------------------------------------
// Exteriors.
// ---------------------------------------------------------------------------

proof fn lemma_exterior_shaped(x: Elt, y: Elt)
    requires
        y.len() == 128,
    ensures
        stark_model::tensor_shaped(stark_model::exterior(x, y)),
{
    let e = stark_model::exterior(x, y);
    assert forall|u: int| 0 <= u < DIM implies (#[trigger] e[u]).len() == DIM by {}
}

/// Exteriors are additive on both sides.
proof fn lemma_exterior_sum(x: Elt, v: Elt, y: Elt, z: Elt)
    requires
        x.len() == 128,
        v.len() == 128,
        y.len() == 128,
        z.len() == 128,
    ensures
        stark_model::tensor_plus(stark_model::exterior(x, y), stark_model::exterior(v, y))
            == stark_model::exterior(field::plus(x, v), y),
        stark_model::tensor_plus(stark_model::exterior(x, y), stark_model::exterior(x, z))
            == stark_model::exterior(x, field::plus(y, z)),
{
    let a = stark_model::tensor_plus(stark_model::exterior(x, y), stark_model::exterior(v, y));
    let b = stark_model::exterior(field::plus(x, v), y);
    let zero = field::zero128();
    field::law_plus_self(y);
    field::law_plus_self(zero);
    field::law_plus_comm(y, zero);
    assert forall|u: int| 0 <= u < DIM implies a[u] == b[u] by {}
    assert(a =~= b);
    let c = stark_model::tensor_plus(stark_model::exterior(x, y), stark_model::exterior(x, z));
    let d = stark_model::exterior(x, field::plus(y, z));
    assert forall|u: int| 0 <= u < DIM implies c[u] == d[u] by {}
    assert(c =~= d);
}

/// Scaling an exterior scales one of its sides.
proof fn lemma_exterior_scaled(x: Elt, y: Elt, a: Elt)
    requires
        x.len() == 128,
        y.len() == 128,
        a.len() == 128,
    ensures
        stark_model::scale_rows(stark_model::exterior(x, y), a) == stark_model::exterior(
            x,
            field::times(y, a),
        ),
        stark_model::scale_columns(stark_model::exterior(x, y), a) == stark_model::exterior(
            field::times(x, a),
            y,
        ),
{
    field::lemma_level_128();
    lemma_rows_scaled(x, y, a);
    lemma_rows_scaled(y, x, a);
    lemma_transposed_exterior(x, y);
    field::lemma_times_len(x, a);
    lemma_transposed_exterior(y, field::times(x, a));
}

proof fn lemma_rows_scaled(x: Elt, y: Elt, a: Elt)
    requires
        y.len() == 128,
        a.len() == 128,
    ensures
        stark_model::scale_rows(stark_model::exterior(x, y), a) == stark_model::exterior(
            x,
            field::times(y, a),
        ),
{
    field::lemma_level_128();
    let l = stark_model::scale_rows(stark_model::exterior(x, y), a);
    let r = stark_model::exterior(x, field::times(y, a));
    field::lemma_times_zero(a);
    field::law_times_comm(a, field::zero128());
    assert forall|u: int| 0 <= u < DIM implies l[u] == r[u] by {}
    assert(l =~= r);
}

proof fn lemma_transposed_exterior(x: Elt, y: Elt)
    requires
        x.len() == 128,
        y.len() == 128,
    ensures
        stark_model::transposed(stark_model::exterior(x, y)) == stark_model::exterior(y, x),
{
    let l = stark_model::transposed(stark_model::exterior(x, y));
    let r = stark_model::exterior(y, x);
    assert forall|v: int| 0 <= v < DIM implies l[v] == r[v] by {
        assert(l[v] =~= r[v]);
    }
    assert(l =~= r);
}

/// The equality step on an exterior: `(1 + a) x (x) (1 + b) y + a x (x) b y`.
proof fn lemma_step_exterior(x: Elt, y: Elt, a: Elt, b: Elt)
    requires
        x.len() == 128,
        y.len() == 128,
        a.len() == 128,
        b.len() == 128,
    ensures
        stark_model::mul_equality_factor(stark_model::exterior(x, y), a, b)
            == stark_model::tensor_plus(
            stark_model::exterior(
                field::times(x, field::plus(field::one128(), a)),
                field::times(y, field::plus(field::one128(), b)),
            ),
            stark_model::exterior(field::times(x, a), field::times(y, b)),
        ),
{
    field::lemma_level_128();
    let one = field::one128();
    let t = stark_model::exterior(x, y);
    lemma_exterior_shaped(x, y);
    stark_model::law_equality_factor(t, a, b);
    lemma_exterior_scaled(x, y, field::plus(one, a));
    lemma_exterior_scaled(x, y, a);
    field::lemma_times_len(x, field::plus(one, a));
    field::lemma_times_len(x, a);
    lemma_exterior_scaled(field::times(x, field::plus(one, a)), y, field::plus(one, b));
    lemma_exterior_scaled(field::times(x, a), y, b);
}

/// Sums of tensors, paired otherwise.
proof fn lemma_tensor_swap(a: TensorM, b: TensorM, c: TensorM, d: TensorM)
    requires
        stark_model::tensor_shaped(a),
        stark_model::tensor_shaped(b),
        stark_model::tensor_shaped(c),
        stark_model::tensor_shaped(d),
    ensures
        stark_model::tensor_plus(
            stark_model::tensor_plus(a, b),
            stark_model::tensor_plus(c, d),
        ) == stark_model::tensor_plus(
            stark_model::tensor_plus(a, c),
            stark_model::tensor_plus(b, d),
        ),
{
    let l = stark_model::tensor_plus(
        stark_model::tensor_plus(a, b),
        stark_model::tensor_plus(c, d),
    );
    let r = stark_model::tensor_plus(
        stark_model::tensor_plus(a, c),
        stark_model::tensor_plus(b, d),
    );
    assert forall|u: int| 0 <= u < DIM implies l[u] == r[u] by {
        assert(a[u].len() == DIM && b[u].len() == DIM && c[u].len() == DIM && d[u].len() == DIM);
        assert(l[u] =~= r[u]);
    }
    assert(l =~= r);
}

proof fn lemma_tensor_assoc(a: TensorM, b: TensorM, c: TensorM)
    requires
        stark_model::tensor_shaped(a),
        stark_model::tensor_shaped(b),
        stark_model::tensor_shaped(c),
    ensures
        stark_model::tensor_plus(stark_model::tensor_plus(a, b), c) == stark_model::tensor_plus(
            a,
            stark_model::tensor_plus(b, c),
        ),
{
    let l = stark_model::tensor_plus(stark_model::tensor_plus(a, b), c);
    let r = stark_model::tensor_plus(a, stark_model::tensor_plus(b, c));
    assert forall|u: int| 0 <= u < DIM implies l[u] == r[u] by {
        assert(a[u].len() == DIM && b[u].len() == DIM && c[u].len() == DIM);
        assert(l[u] =~= r[u]);
    }
    assert(l =~= r);
}

/// The equality step is additive.
proof fn lemma_step_sum(s: TensorM, t: TensorM, a: Elt, b: Elt)
    requires
        stark_model::tensor_shaped(s),
        stark_model::tensor_shaped(t),
        a.len() == 128,
        b.len() == 128,
    ensures
        stark_model::mul_equality_factor(stark_model::tensor_plus(s, t), a, b)
            == stark_model::tensor_plus(
            stark_model::mul_equality_factor(s, a, b),
            stark_model::mul_equality_factor(t, a, b),
        ),
        stark_model::tensor_shaped(stark_model::mul_equality_factor(s, a, b)),
{
    let st = stark_model::tensor_plus(s, t);
    stark_model::lemma_tensor_plus_shaped(s, t);
    let (ts, tt) = (stark_model::transposed(s), stark_model::transposed(t));
    stark_model::lemma_transposed_shaped(s);
    stark_model::lemma_transposed_shaped(t);
    stark_model::lemma_transposed_plus(s, t);
    stark_model::lemma_scale_rows_plus(ts, tt, a);
    stark_model::lemma_scale_rows_shaped(ts, a);
    stark_model::lemma_scale_rows_shaped(tt, a);
    stark_model::lemma_transposed_plus(
        stark_model::scale_rows(ts, a),
        stark_model::scale_rows(tt, a),
    );
    let (cs, ct) = (stark_model::scale_columns(s, a), stark_model::scale_columns(t, a));
    stark_model::lemma_transposed_shaped(stark_model::scale_rows(ts, a));
    stark_model::lemma_transposed_shaped(stark_model::scale_rows(tt, a));
    assert(stark_model::scale_columns(st, a) == stark_model::tensor_plus(cs, ct));
    stark_model::lemma_scale_rows_plus(s, t, b);
    let (rs, rt) = (stark_model::scale_rows(s, b), stark_model::scale_rows(t, b));
    stark_model::lemma_scale_rows_shaped(s, b);
    stark_model::lemma_scale_rows_shaped(t, b);
    lemma_tensor_swap(s, t, cs, ct);
    stark_model::lemma_tensor_plus_shaped(s, cs);
    stark_model::lemma_tensor_plus_shaped(t, ct);
    lemma_tensor_swap(
        stark_model::tensor_plus(s, cs),
        stark_model::tensor_plus(t, ct),
        rs,
        rt,
    );
    stark_model::lemma_tensor_plus_shaped(stark_model::tensor_plus(s, cs), rs);
}

// ---------------------------------------------------------------------------
// Batching the rows.
// ---------------------------------------------------------------------------

proof fn lemma_dot_sum(s: TensorM, t: TensorM, w: Seq<Elt>, n: nat)
    requires
        stark_model::tensor_shaped(s),
        stark_model::tensor_shaped(t),
        weights_ok(w),
        n <= 128,
    ensures
        stark_model::dot(stark_model::tensor_plus(s, t).take(n as int), w) == field::plus(
            stark_model::dot(s.take(n as int), w),
            stark_model::dot(t.take(n as int), w),
        ),
        stark_model::dot(s.take(n as int), w).len() == 128,
        stark_model::dot(t.take(n as int), w).len() == 128,
    decreases n,
{
    field::lemma_level_128();
    let st = stark_model::tensor_plus(s, t);
    if n == 0 {
        field::law_plus_self(field::zero128());
    } else {
        let k = n - 1;
        lemma_dot_sum(s, t, w, k as nat);
        assert(st.take(n as int).drop_last() =~= st.take(k));
        assert(s.take(n as int).drop_last() =~= s.take(k));
        assert(t.take(n as int).drop_last() =~= t.take(k));
        assert(s[k].len() == DIM && t[k].len() == DIM);
        assert(Binary::has(w[k]));
        field::law_distribute_left(s[k], t[k], w[k]);
        field::lemma_times_len(s[k], w[k]);
        field::lemma_times_len(t[k], w[k]);
        multilinear::lemma_swap::<Binary>(
            stark_model::dot(s.take(k), w),
            stark_model::dot(t.take(k), w),
            field::times(s[k], w[k]),
            field::times(t[k], w[k]),
        );
    }
}

proof fn lemma_dot_exterior(x: Elt, y: Elt, w: Seq<Elt>, n: nat)
    requires
        x.len() == 128,
        y.len() == 128,
        weights_ok(w),
        n <= 128,
    ensures
        stark_model::dot(stark_model::exterior(x, y).take(n as int), w) == field::times(
            chosen(x, w, n),
            y,
        ),
        chosen(x, w, n).len() == 128,
    decreases n,
{
    field::lemma_level_128();
    let e = stark_model::exterior(x, y);
    let zero = field::zero128();
    field::lemma_times_zero(y);
    field::law_times_comm(y, zero);
    if n > 0 {
        let k = n - 1;
        lemma_dot_exterior(x, y, w, k as nat);
        assert(e.take(n as int).drop_last() =~= e.take(k));
        assert(Binary::has(w[k]));
        let c = chosen(x, w, k as nat);
        let v = if x[k] {
            w[k]
        } else {
            zero
        };
        field::law_distribute_left(c, v, y);
        field::law_times_comm(w[k], y);
        field::lemma_times_zero(w[k]);
        field::law_times_comm(w[k], zero);
    }
}

// ---------------------------------------------------------------------------
// Sums.
// ---------------------------------------------------------------------------

proof fn lemma_spread_shaped(h: Left, s: Seq<bool>, y: Elt, x: Seq<Elt>)
    requires
        y.len() == 128,
        multilinear::point::<Binary>(x),
    ensures
        stark_model::tensor_shaped(spread(h, s, y, x)),
    decreases x.len(),
{
    field::lemma_level_128();
    if x.len() == 0 {
        lemma_exterior_shaped(h(s), y);
    } else {
        assert(Binary::has(x[0]));
        let u = field::plus(field::one128(), x[0]);
        field::lemma_times_len(y, u);
        field::lemma_times_len(y, x[0]);
        lemma_skip(x);
        lemma_spread_shaped(h, s.push(false), field::times(y, u), x.skip(1));
        lemma_spread_shaped(h, s.push(true), field::times(y, x[0]), x.skip(1));
        stark_model::lemma_tensor_plus_shaped(
            spread(h, s.push(false), field::times(y, u), x.skip(1)),
            spread(h, s.push(true), field::times(y, x[0]), x.skip(1)),
        );
    }
}

pub proof fn lemma_skip(x: Seq<Elt>)
    requires
        multilinear::point::<Binary>(x),
        x.len() > 0,
    ensures
        multilinear::point::<Binary>(x.skip(1)),
        x[0].len() == 128,
{
    let t = x.skip(1);
    assert(Binary::has(x[0]));
    assert forall|i: int| 0 <= i < t.len() implies Binary::has(#[trigger] t[i]) by {
        assert(Binary::has(x[i + 1]));
    }
}

/// Only the left factors above `s` count.
proof fn lemma_spread_ext(h: Left, s: Seq<bool>, g: Left, t: Seq<bool>, y: Elt, x: Seq<Elt>)
    requires
        forall|b: Seq<bool>| b.len() == x.len() ==> h(s + b) == g(#[trigger] (t + b)),
    ensures
        spread(h, s, y, x) == spread(g, t, y, x),
    decreases x.len(),
{
    if x.len() == 0 {
        let e = Seq::<bool>::empty();
        assert(s + e =~= s);
        assert(t + e =~= t);
        assert(h(s + e) == g(t + e));
    } else {
        assert forall|c: bool, b: Seq<bool>| b.len() == x.len() - 1 implies h(s.push(c) + b) == g(
            #[trigger] (t.push(c) + b),
        ) by {
            let d = seq![c] + b;
            assert(s.push(c) + b =~= s + d);
            assert(t.push(c) + b =~= t + d);
            assert(h(s + d) == g(t + d));
        }
        lemma_spread_ext(
            h,
            s.push(false),
            g,
            t.push(false),
            field::times(y, field::plus(field::one128(), x[0])),
            x.skip(1),
        );
        lemma_spread_ext(h, s.push(true), g, t.push(true), field::times(y, x[0]), x.skip(1));
    }
}

/// Sums with added left factors add up.
proof fn lemma_spread_sum(h: Left, g: Left, k: Left, s: Seq<bool>, y: Elt, x: Seq<Elt>)
    requires
        y.len() == 128,
        multilinear::point::<Binary>(x),
        forall|b: Seq<bool>|
            b.len() == x.len() ==> {
                &&& h(s + b).len() == 128
                &&& g(s + b).len() == 128
                &&& k(#[trigger] (s + b)) == field::plus(h(s + b), g(s + b))
            },
    ensures
        spread(k, s, y, x) == stark_model::tensor_plus(spread(h, s, y, x), spread(g, s, y, x)),
    decreases x.len(),
{
    field::lemma_level_128();
    if x.len() == 0 {
        let e = Seq::<bool>::empty();
        assert(s + e =~= s);
        assert(k(s + e) == field::plus(h(s + e), g(s + e)));
        lemma_exterior_sum(h(s), g(s), y, y);
    } else {
        lemma_skip(x);
        let u = field::plus(field::one128(), x[0]);
        let (y0, y1) = (field::times(y, u), field::times(y, x[0]));
        field::lemma_times_len(y, u);
        field::lemma_times_len(y, x[0]);
        assert forall|c: bool, b: Seq<bool>| b.len() == x.len() - 1 implies {
            &&& h(s.push(c) + b).len() == 128
            &&& g(s.push(c) + b).len() == 128
            &&& k(#[trigger] (s.push(c) + b)) == field::plus(
                h(s.push(c) + b),
                g(s.push(c) + b),
            )
        } by {
            let d = seq![c] + b;
            assert(s.push(c) + b =~= s + d);
            assert(k(s + d) == field::plus(h(s + d), g(s + d)));
        }
        let (s0, s1, t) = (s.push(false), s.push(true), x.skip(1));
        lemma_spread_sum(h, g, k, s0, y0, t);
        lemma_spread_sum(h, g, k, s1, y1, t);
        lemma_spread_shaped(h, s0, y0, t);
        lemma_spread_shaped(g, s0, y0, t);
        lemma_spread_shaped(h, s1, y1, t);
        lemma_spread_shaped(g, s1, y1, t);
        lemma_tensor_swap(
            spread(h, s0, y0, t),
            spread(g, s0, y0, t),
            spread(h, s1, y1, t),
            spread(g, s1, y1, t),
        );
    }
}

/// `h` times a constant.
pub open spec fn scaled(h: Left, c: Elt) -> Left {
    |b: Seq<bool>| field::times(h(b), c)
}

/// The equality step on a sum.
proof fn lemma_step_spread(h: Left, s: Seq<bool>, y: Elt, x: Seq<Elt>, a: Elt, b: Elt)
    requires
        left_ok(h, s.len() + x.len()),
        y.len() == 128,
        multilinear::point::<Binary>(x),
        a.len() == 128,
        b.len() == 128,
    ensures
        stark_model::mul_equality_factor(spread(h, s, y, x), a, b) == stark_model::tensor_plus(
            spread(
                scaled(h, field::plus(field::one128(), a)),
                s,
                field::times(y, field::plus(field::one128(), b)),
                x,
            ),
            spread(scaled(h, a), s, field::times(y, b), x),
        ),
    decreases x.len(),
{
    field::lemma_level_128();
    let one = field::one128();
    let (ua, ub) = (field::plus(one, a), field::plus(one, b));
    if x.len() == 0 {
        assert(h(s).len() == 128);
        lemma_step_exterior(h(s), y, a, b);
    } else {
        lemma_skip(x);
        let v = field::plus(one, x[0]);
        let (s0, s1, t) = (s.push(false), s.push(true), x.skip(1));
        let (y0, y1) = (field::times(y, v), field::times(y, x[0]));
        field::lemma_times_len(y, v);
        field::lemma_times_len(y, x[0]);
        field::lemma_times_len(y, ub);
        field::lemma_times_len(y, b);
        lemma_step_spread(h, s0, y0, t, a, b);
        lemma_step_spread(h, s1, y1, t, a, b);
        lemma_spread_shaped(h, s0, y0, t);
        lemma_spread_shaped(h, s1, y1, t);
        lemma_step_sum(spread(h, s0, y0, t), spread(h, s1, y1, t), a, b);
        // (y v) ub = (y ub) v, and so on.
        lemma_exchange(y, v, ub);
        lemma_exchange(y, x[0], ub);
        lemma_exchange(y, v, b);
        lemma_exchange(y, x[0], b);
        field::lemma_times_len(y0, ub);
        field::lemma_times_len(y0, b);
        field::lemma_times_len(y1, ub);
        field::lemma_times_len(y1, b);
        let (hu, ha) = (scaled(h, ua), scaled(h, a));
        lemma_spread_shaped(hu, s0, field::times(y0, ub), t);
        lemma_spread_shaped(ha, s0, field::times(y0, b), t);
        lemma_spread_shaped(hu, s1, field::times(y1, ub), t);
        lemma_spread_shaped(ha, s1, field::times(y1, b), t);
        lemma_tensor_swap(
            spread(hu, s0, field::times(y0, ub), t),
            spread(ha, s0, field::times(y0, b), t),
            spread(hu, s1, field::times(y1, ub), t),
            spread(ha, s1, field::times(y1, b), t),
        );
    }
}

pub proof fn lemma_exchange(y: Elt, u: Elt, v: Elt)
    requires
        y.len() == 128,
        u.len() == 128,
        v.len() == 128,
    ensures
        field::times(field::times(y, u), v) == field::times(field::times(y, v), u),
{
    field::lemma_level_128();
    field::law_times_assoc(y, u, v);
    field::law_times_assoc(y, v, u);
    field::law_times_comm(u, v);
}

/// Batching a sum's rows extends the batched left factors.
proof fn lemma_dot_spread(h: Left, s: Seq<bool>, y: Elt, x: Seq<Elt>, w: Seq<Elt>)
    requires
        left_ok(h, s.len() + x.len()),
        y.len() == 128,
        multilinear::point::<Binary>(x),
        weights_ok(w),
    ensures
        extended(h, w, s, x).len() == 128,
        stark_model::dot(spread(h, s, y, x), w) == field::times(extended(h, w, s, x), y),
    decreases x.len(),
{
    field::lemma_level_128();
    let t = spread(h, s, y, x);
    lemma_spread_shaped(h, s, y, x);
    assert(t.take(128) =~= t);
    if x.len() == 0 {
        assert(h(s).len() == 128);
        lemma_dot_exterior(h(s), y, w, 128);
    } else {
        lemma_skip(x);
        let one = field::one128();
        let v = field::plus(one, x[0]);
        let (s0, s1, r) = (s.push(false), s.push(true), x.skip(1));
        let (y0, y1) = (field::times(y, v), field::times(y, x[0]));
        field::lemma_times_len(y, v);
        field::lemma_times_len(y, x[0]);
        lemma_dot_spread(h, s0, y0, r, w);
        lemma_dot_spread(h, s1, y1, r, w);
        lemma_spread_shaped(h, s0, y0, r);
        lemma_spread_shaped(h, s1, y1, r);
        let (t0, t1) = (spread(h, s0, y0, r), spread(h, s1, y1, r));
        assert(t0.take(128) =~= t0);
        assert(t1.take(128) =~= t1);
        lemma_dot_sum(t0, t1, w, 128);
        let (e0, e1) = (extended(h, w, s0, r), extended(h, w, s1, r));
        // e0 (y v) + e1 (y x0) = (e0 v + e1 x0) y
        field::law_times_comm(y, v);
        field::law_times_comm(y, x[0]);
        field::law_times_assoc(e0, v, y);
        field::law_times_assoc(e1, x[0], y);
        field::lemma_times_len(e0, v);
        field::lemma_times_len(e1, x[0]);
        field::law_distribute_left(field::times(e0, v), field::times(e1, x[0]), y);
        multilinear::lemma_blend::<Binary>(e0, e1, x[0]);
        multilinear::lemma_lerp::<Binary>(e0, e1, e0, e1, x[0]);
    }
}

/// At a vertex the extension is the batched left factor there.
proof fn lemma_extended_vertex(h: Left, w: Seq<Elt>, s: Seq<bool>, t: Seq<bool>, x: Seq<Elt>)
    requires
        left_ok(h, s.len() + t.len() + x.len()),
        weights_ok(w),
        multilinear::point::<Binary>(x),
    ensures
        extended(h, w, s, stark_laws::row_point(t) + x) == extended(h, w, s + t, x),
    decreases t.len(),
{
    let p = stark_laws::row_point(t) + x;
    if t.len() == 0 {
        assert(p =~= x);
        assert(s + t =~= s);
    } else {
        let r = t.skip(1);
        let q = stark_laws::row_point(r) + x;
        assert(p.skip(1) =~= q);
        assert(p[0] == stark_laws::truth(t[0]));
        lemma_row_point(r);
        multilinear::lemma_point_join::<Binary>(stark_laws::row_point(r), x);
        lemma_extended_vertex(h, w, s.push(t[0]), r, x);
        assert(s.push(t[0]) + r =~= s + t);
        let one = field::one128();
        lemma_dot_spread(h, s.push(false), one, q, w);
        lemma_dot_spread(h, s.push(true), one, q, w);
        let (e0, e1) = (extended(h, w, s.push(false), q), extended(h, w, s.push(true), q));
        multilinear::lemma_lerp::<Binary>(e0, e1, e0, e1, one);
    }
}

pub proof fn lemma_row_point(b: Seq<bool>)
    ensures
        multilinear::point::<Binary>(stark_laws::row_point(b)),
        stark_laws::row_point(b).len() == b.len(),
{
    let p = stark_laws::row_point(b);
    assert forall|i: int| 0 <= i < p.len() implies Binary::has(#[trigger] p[i]) by {}
}

/// The extension is affine in every coordinate.
proof fn lemma_extended_affine(h: Left, w: Seq<Elt>, s: Seq<bool>, x: Seq<Elt>, k: int, v: Elt)
    requires
        left_ok(h, s.len() + x.len()),
        weights_ok(w),
        multilinear::point::<Binary>(x),
        0 <= k < x.len(),
        v.len() == 128,
    ensures
        extended(h, w, s, x.update(k, v)) == multilinear::lerp::<Binary>(
            extended(h, w, s, x.update(k, field::zero128())),
            extended(h, w, s, x.update(k, field::one128())),
            v,
        ),
    decreases x.len(),
{
    let (zero, one) = (field::zero128(), field::one128());
    lemma_skip(x);
    let t = x.skip(1);
    let (s0, s1) = (s.push(false), s.push(true));
    if k == 0 {
        assert(x.update(0, v).skip(1) =~= t);
        assert(x.update(0, zero).skip(1) =~= t);
        assert(x.update(0, one).skip(1) =~= t);
        lemma_dot_spread(h, s0, one, t, w);
        lemma_dot_spread(h, s1, one, t, w);
        let (e0, e1) = (extended(h, w, s0, t), extended(h, w, s1, t));
        multilinear::lemma_lerp::<Binary>(e0, e1, e0, e1, v);
    } else {
        let j = k - 1;
        assert(x.update(k, v).skip(1) =~= t.update(j, v));
        assert(x.update(k, zero).skip(1) =~= t.update(j, zero));
        assert(x.update(k, one).skip(1) =~= t.update(j, one));
        lemma_extended_affine(h, w, s0, t, j, v);
        lemma_extended_affine(h, w, s1, t, j, v);
        multilinear::lemma_point_update::<Binary>(t, j, zero);
        multilinear::lemma_point_update::<Binary>(t, j, one);
        lemma_dot_spread(h, s0, one, t.update(j, zero), w);
        lemma_dot_spread(h, s0, one, t.update(j, one), w);
        lemma_dot_spread(h, s1, one, t.update(j, zero), w);
        lemma_dot_spread(h, s1, one, t.update(j, one), w);
        let a0 = extended(h, w, s0, t.update(j, zero));
        let a1 = extended(h, w, s0, t.update(j, one));
        let b0 = extended(h, w, s1, t.update(j, zero));
        let b1 = extended(h, w, s1, t.update(j, one));
        // lerp(lerp(a0, a1, v), lerp(b0, b1, v), x0) by the two weights of x0.
        let y = x[0];
        let u = field::plus(one, y);
        multilinear::lemma_lerp::<Binary>(a0, a1, u, u, v);
        multilinear::lemma_lerp::<Binary>(b0, b1, y, y, v);
        multilinear::lemma_blend::<Binary>(
            multilinear::lerp::<Binary>(a0, a1, v),
            multilinear::lerp::<Binary>(b0, b1, v),
            y,
        );
        multilinear::lemma_blend::<Binary>(a0, b0, y);
        multilinear::lemma_blend::<Binary>(a1, b1, y);
        Binary::closed(u, a0);
        Binary::closed(u, a1);
        Binary::closed(y, b0);
        Binary::closed(y, b1);
        multilinear::lemma_lerp::<Binary>(
            Binary::times(u, a0),
            Binary::times(u, a1),
            Binary::times(y, b0),
            Binary::times(y, b1),
            v,
        );
        assert(x.update(k, v)[0] == y);
        assert(x.update(k, zero)[0] == y);
        assert(x.update(k, one)[0] == y);
    }
}

// ---------------------------------------------------------------------------
// The left factors.
// ---------------------------------------------------------------------------

/// The weight of vertex `b` at the point `z`: the product of `z_i` where its bit
/// is set and of `1 + z_i` where it is not.
pub open spec fn vertex_weight(z: Seq<Elt>, b: Seq<bool>) -> Elt
    decreases z.len(),
{
    if z.len() == 0 {
        field::one128()
    } else {
        field::times(
            if b[0] {
                z[0]
            } else {
                field::plus(field::one128(), z[0])
            },
            vertex_weight(z.skip(1), b.skip(1)),
        )
    }
}

/// The row before row `b`.
pub open spec fn row_before(b: Seq<bool>) -> Seq<bool> {
    choose|c: Seq<bool>|
        c.len() == b.len() && #[trigger] stark_laws::row_number(c) == stark_laws::row_number(b) - 1
}

/// The weight at `z` of the row before row `b`; the first row has none.
pub open spec fn prior_weight(z: Seq<Elt>, b: Seq<bool>) -> Elt {
    if stark_laws::row_number(b) == 0 {
        field::zero128()
    } else {
        vertex_weight(z, row_before(b))
    }
}

/// The weight at `z` of row `b` if it is the last.
pub open spec fn last_weight(z: Seq<Elt>, b: Seq<bool>) -> Elt {
    if stark_laws::row_number(b) == pow2(b.len()) - 1 {
        vertex_weight(z, b)
    } else {
        field::zero128()
    }
}

pub open spec fn plain_left(z: Seq<Elt>) -> Left {
    |b: Seq<bool>| vertex_weight(z, b)
}

/// The first `k` coordinates name a column, the others a row: the weight of the
/// same column and of the row before.
pub open spec fn carry_left(z: Seq<Elt>, k: int) -> Left {
    |b: Seq<bool>|
        field::times(vertex_weight(z.take(k), b.take(k)), prior_weight(z.skip(k), b.skip(k)))
}

/// The weight of the same column and of the row if it is the last.
pub open spec fn last_left(z: Seq<Elt>, k: int) -> Left {
    |b: Seq<bool>|
        field::times(vertex_weight(z.take(k), b.take(k)), last_weight(z.skip(k), b.skip(k)))
}

proof fn lemma_vertex_weight(z: Seq<Elt>, b: Seq<bool>)
    requires
        multilinear::point::<Binary>(z),
    ensures
        vertex_weight(z, b).len() == 128,
    decreases z.len(),
{
    field::lemma_level_128();
    if z.len() > 0 {
        lemma_skip(z);
        lemma_vertex_weight(z.skip(1), b.skip(1));
        let u = if b[0] {
            z[0]
        } else {
            field::plus(field::one128(), z[0])
        };
        field::lemma_times_len(u, vertex_weight(z.skip(1), b.skip(1)));
    }
}

/// A row that is not the first has one before it.
proof fn lemma_row_before(b: Seq<bool>)
    requires
        stark_laws::row_number(b) > 0,
    ensures
        row_before(b).len() == b.len(),
        stark_laws::row_number(row_before(b)) == stark_laws::row_number(b) - 1,
{
    let c = lemma_some_before(b);
    assert(c.len() == b.len() && stark_laws::row_number(c) == stark_laws::row_number(b) - 1);
}

proof fn lemma_some_before(b: Seq<bool>) -> (c: Seq<bool>)
    requires
        stark_laws::row_number(b) > 0,
    ensures
        c.len() == b.len(),
        stark_laws::row_number(c) == stark_laws::row_number(b) - 1,
    decreases b.len(),
{
    stark_laws::lemma_row_bounds(b.drop_last());
    if b.last() {
        let c = b.drop_last().push(false);
        assert(c.drop_last() =~= b.drop_last());
        c
    } else {
        let d = lemma_some_before(b.drop_last());
        let c = d.push(true);
        assert(c.drop_last() =~= d);
        c
    }
}

/// The weight of all ones.
pub open spec fn ones(z: Seq<Elt>) -> Elt
    decreases z.len(),
{
    if z.len() == 0 {
        field::one128()
    } else {
        field::times(ones(z.skip(1)), z[0])
    }
}

/// The weight of all zeros.
pub open spec fn zeros(z: Seq<Elt>) -> Elt
    decreases z.len(),
{
    if z.len() == 0 {
        field::one128()
    } else {
        field::times(zeros(z.skip(1)), field::plus(field::one128(), z[0]))
    }
}

proof fn lemma_corners(z: Seq<Elt>)
    requires
        multilinear::point::<Binary>(z),
    ensures
        ones(z).len() == 128,
        zeros(z).len() == 128,
    decreases z.len(),
{
    field::lemma_level_128();
    if z.len() > 0 {
        lemma_skip(z);
        lemma_corners(z.skip(1));
        field::lemma_times_len(ones(z.skip(1)), z[0]);
        field::lemma_times_len(zeros(z.skip(1)), field::plus(field::one128(), z[0]));
    }
}

proof fn lemma_product(z: Seq<Elt>)
    requires
        multilinear::point::<Binary>(z),
    ensures
        stark_model::product(z) == ones(z),
        stark_model::product(z).len() == 128,
    decreases z.len(),
{
    field::lemma_level_128();
    lemma_corners(z);
    if z.len() == 1 {
        lemma_skip(z);
        assert(z.drop_last() =~= Seq::<Elt>::empty());
        assert(z.skip(1) =~= Seq::<Elt>::empty());
        assert(stark_model::product(z.drop_last()) == field::one128());
        assert(ones(z.skip(1)) == field::one128());
    } else if z.len() > 1 {
        lemma_skip(z);
        let front = z.drop_last();
        assert forall|i: int| 0 <= i < front.len() implies Binary::has(#[trigger] front[i]) by {
            assert(Binary::has(z[i]));
        }
        lemma_product(front);
        lemma_product(z.skip(1));
        lemma_skip(front);
        assert(front.skip(1) =~= z.skip(1).drop_last());
        let mid = z.skip(1).drop_last();
        assert forall|i: int| 0 <= i < mid.len() implies Binary::has(#[trigger] mid[i]) by {
            assert(Binary::has(z[i + 1]));
        }
        lemma_product(mid);
        // product(front) last = (ones(mid) z0) last = (product(mid) last) z0
        assert(Binary::has(z[z.len() - 1]));
        lemma_exchange(ones(mid), z[0], z.last());
        assert(z.skip(1).last() == z.last());
        assert(front[0] == z[0]);
        assert(stark_model::product(front) == field::times(ones(mid), z[0]));
        assert(ones(z.skip(1)) == field::times(ones(mid), z.last()));
    }
}

/// All true, all false.
proof fn lemma_corner_rows(b: Seq<bool>)
    requires
        b.len() > 0,
    ensures
        stark_laws::row_number(b) == pow2(b.len()) - 1 <==> b[0] && stark_laws::row_number(
            b.skip(1),
        ) == pow2(b.skip(1).len()) - 1,
        stark_laws::row_number(b) == 0 <==> !b[0] && stark_laws::row_number(b.skip(1)) == 0,
{
    stark_laws::lemma_row_first(b);
    stark_laws::lemma_row_bounds(b.skip(1));
    lemma_pow2_unfold(b.len());
    vstd::arithmetic::power2::lemma_pow2_pos((b.len() - 1) as nat);
}

proof fn lemma_ones_weight(z: Seq<Elt>, b: Seq<bool>)
    requires
        multilinear::point::<Binary>(z),
        b.len() == z.len(),
        stark_laws::row_number(b) == pow2(b.len()) - 1,
    ensures
        vertex_weight(z, b) == ones(z),
    decreases z.len(),
{
    field::lemma_level_128();
    if z.len() > 0 {
        lemma_skip(z);
        lemma_corner_rows(b);
        lemma_ones_weight(z.skip(1), b.skip(1));
        lemma_corners(z.skip(1));
        field::law_times_comm(z[0], ones(z.skip(1)));
    }
}

/// The row before, by the first bit.
proof fn lemma_prior(z: Seq<Elt>, b: Seq<bool>)
    requires
        multilinear::point::<Binary>(z),
        z.len() == b.len() + 1,
    ensures
        prior_weight(z.skip(1), b).len() == 128,
        prior_weight(z, seq![false] + b) == field::times(
            prior_weight(z.skip(1), b),
            field::plus(field::one128(), z[0]),
        ),
        prior_weight(z, seq![true] + b) == field::plus(
            field::times(prior_weight(z.skip(1), b), z[0]),
            if stark_laws::row_number(b) == 0 {
                field::times(ones(z.skip(1)), field::plus(field::one128(), z[0]))
            } else {
                field::zero128()
            },
        ),
{
    field::lemma_level_128();
    let one = field::one128();
    let zero = field::zero128();
    lemma_skip(z);
    let t = z.skip(1);
    let u = field::plus(one, z[0]);
    let (b0, b1) = (seq![false] + b, seq![true] + b);
    assert(b0.skip(1) =~= b);
    assert(b1.skip(1) =~= b);
    stark_laws::lemma_row_first(b0);
    stark_laws::lemma_row_first(b1);
    stark_laws::lemma_row_bounds(b);
    let n = b.len();
    vstd::arithmetic::power2::lemma_pow2_pos(n);
    lemma_corners(t);
    field::lemma_times_zero(u);
    field::law_times_comm(u, zero);
    field::lemma_times_zero(z[0]);
    field::law_times_comm(z[0], zero);
    field::law_plus_self(zero);
    field::lemma_times_len(ones(t), u);
    field::law_plus_self(field::times(ones(t), u));
    field::law_plus_comm(field::times(ones(t), u), zero);
    if stark_laws::row_number(b) == 0 {
        let c = row_before(b1);
        lemma_row_before(b1);
        // 2^n - 1 is all ones below a zero.
        lemma_all_true(n);
        let w = Seq::new(n, |i: int| true);
        let v = seq![false] + w;
        assert(v.skip(1) =~= w);
        stark_laws::lemma_row_first(v);
        stark_laws::lemma_row_unique(c, v);
        lemma_ones_weight(t, w);
        field::law_times_comm(u, ones(t));
    } else {
        lemma_row_before(b);
        let c = row_before(b);
        lemma_vertex_weight(t, c);
        let pw = vertex_weight(t, c);
        lemma_row_before(b0);
        lemma_row_before(b1);
        let (v0, v1) = (seq![false] + c, seq![true] + c);
        assert(v0.skip(1) =~= c);
        assert(v1.skip(1) =~= c);
        stark_laws::lemma_row_first(v0);
        stark_laws::lemma_row_first(v1);
        stark_laws::lemma_row_unique(row_before(b0), v0);
        stark_laws::lemma_row_unique(row_before(b1), v1);
        field::law_times_comm(u, pw);
        field::law_times_comm(z[0], pw);
        field::lemma_times_len(pw, z[0]);
        field::law_plus_self(field::times(pw, z[0]));
    }
}

proof fn lemma_all_true(n: nat)
    ensures
        stark_laws::row_number(Seq::new(n, |i: int| true)) == pow2(n) - 1,
    decreases n,
{
    vstd::arithmetic::power2::lemma2_to64();
    let w = Seq::new(n, |i: int| true);
    if n > 0 {
        lemma_all_true((n - 1) as nat);
        assert(w.skip(1) =~= Seq::new((n - 1) as nat, |i: int| true));
        lemma_corner_rows(w);
    }
}

// ---------------------------------------------------------------------------
// The closing weight's tensors.
// ---------------------------------------------------------------------------

proof fn lemma_factors_shaped(t: TensorM, a: Seq<Elt>, x: Seq<Elt>)
    requires
        stark_model::tensor_shaped(t),
        multilinear::point::<Binary>(a),
        multilinear::point::<Binary>(x),
        a.len() == x.len(),
    ensures
        stark_model::tensor_shaped(stark_model::equality_factors(t, a, x)),
    decreases a.len(),
{
    if a.len() > 0 {
        lemma_front(a);
        lemma_front(x);
        lemma_factors_shaped(t, a.drop_last(), x.drop_last());
        let s = stark_model::equality_factors(t, a.drop_last(), x.drop_last());
        lemma_step_sum(s, s, a.last(), x.last());
    }
}

proof fn lemma_front(x: Seq<Elt>)
    requires
        multilinear::point::<Binary>(x),
        x.len() > 0,
    ensures
        multilinear::point::<Binary>(x.drop_last()),
        x.last().len() == 128,
{
    let t = x.drop_last();
    assert(Binary::has(x[x.len() - 1]));
    assert forall|i: int| 0 <= i < t.len() implies Binary::has(#[trigger] t[i]) by {
        assert(Binary::has(x[i]));
    }
}

/// The first factor applied first.
proof fn lemma_factors_first(t: TensorM, a: Seq<Elt>, x: Seq<Elt>)
    requires
        a.len() == x.len(),
        a.len() > 0,
    ensures
        stark_model::equality_factors(t, a, x) == stark_model::equality_factors(
            stark_model::mul_equality_factor(t, a[0], x[0]),
            a.skip(1),
            x.skip(1),
        ),
    decreases a.len(),
{
    if a.len() == 1 {
        assert(stark_model::equality_factors(t, a.drop_last(), x.drop_last()) == t);
        let m = stark_model::mul_equality_factor(t, a[0], x[0]);
        assert(stark_model::equality_factors(m, a.skip(1), x.skip(1)) == m);
    } else {
        lemma_factors_first(t, a.drop_last(), x.drop_last());
        assert(a.drop_last().skip(1) =~= a.skip(1).drop_last());
        assert(x.drop_last().skip(1) =~= x.skip(1).drop_last());
        assert(a.drop_last()[0] == a[0] && x.drop_last()[0] == x[0]);
        assert(a.skip(1).last() == a.last() && x.skip(1).last() == x.last());
    }
}

/// The factors are additive.
proof fn lemma_factors_sum(s: TensorM, t: TensorM, a: Seq<Elt>, x: Seq<Elt>)
    requires
        stark_model::tensor_shaped(s),
        stark_model::tensor_shaped(t),
        multilinear::point::<Binary>(a),
        multilinear::point::<Binary>(x),
        a.len() == x.len(),
    ensures
        stark_model::equality_factors(stark_model::tensor_plus(s, t), a, x)
            == stark_model::tensor_plus(
            stark_model::equality_factors(s, a, x),
            stark_model::equality_factors(t, a, x),
        ),
    decreases a.len(),
{
    if a.len() > 0 {
        lemma_front(a);
        lemma_front(x);
        let (af, xf) = (a.drop_last(), x.drop_last());
        lemma_factors_sum(s, t, af, xf);
        lemma_factors_shaped(s, af, xf);
        lemma_factors_shaped(t, af, xf);
        lemma_step_sum(
            stark_model::equality_factors(s, af, xf),
            stark_model::equality_factors(t, af, xf),
            a.last(),
            x.last(),
        );
    }
}

/// Equality factors put coordinates in front of a sum.
proof fn lemma_factors_spread(
    g: Left,
    h: Left,
    a: Seq<Elt>,
    x: Seq<Elt>,
    y: Elt,
    z: Seq<Elt>,
)
    requires
        left_ok(g, z.len()),
        multilinear::point::<Binary>(a),
        multilinear::point::<Binary>(x),
        multilinear::point::<Binary>(z),
        a.len() == x.len(),
        y.len() == 128,
        forall|b: Seq<bool>, c: Seq<bool>|
            b.len() == a.len() && c.len() == z.len() ==> h(#[trigger] (b + c)) == field::times(
                vertex_weight(a, b),
                g(c),
            ),
    ensures
        stark_model::equality_factors(spread(g, Seq::empty(), y, z), a, x) == spread(
            h,
            Seq::empty(),
            y,
            x + z,
        ),
    decreases a.len(),
{
    field::lemma_level_128();
    let none = Seq::<bool>::empty();
    let one = field::one128();
    if a.len() == 0 {
        assert(x + z =~= z);
        assert forall|c: Seq<bool>| c.len() == z.len() implies g(none + c) == h(
            #[trigger] (none + c),
        ) by {
            assert(h(none + c) == field::times(vertex_weight(a, none), g(c)));
            assert(none + c =~= c);
            assert(g(c).len() == 128);
            field::law_times_one(g(c));
        }
        lemma_spread_ext(g, none, h, none, y, z);
    } else {
        lemma_skip(a);
        lemma_skip(x);
        let (at, xt) = (a.skip(1), x.skip(1));
        let (u, v) = (field::plus(one, a[0]), field::plus(one, x[0]));
        let (y0, y1) = (field::times(y, v), field::times(y, x[0]));
        field::lemma_times_len(y, v);
        field::lemma_times_len(y, x[0]);
        let (gu, ga) = (scaled(g, u), scaled(g, a[0]));
        assert forall|c: Seq<bool>| c.len() == z.len() implies (#[trigger] gu(c)).len() == 128 by {
            assert(g(c).len() == 128);
            field::lemma_times_len(g(c), u);
        }
        assert forall|c: Seq<bool>| c.len() == z.len() implies (#[trigger] ga(c)).len() == 128 by {
            assert(g(c).len() == 128);
            field::lemma_times_len(g(c), a[0]);
        }
        let h0 = |b: Seq<bool>| h(seq![false] + b);
        let h1 = |b: Seq<bool>| h(seq![true] + b);
        assert forall|b: Seq<bool>, c: Seq<bool>|
            b.len() == at.len() && c.len() == z.len() implies h0(#[trigger] (b + c))
            == field::times(vertex_weight(at, b), gu(c)) && h1(b + c) == field::times(
            vertex_weight(at, b),
            ga(c),
        ) by {
            let (d0, d1) = (seq![false] + b, seq![true] + b);
            assert(d0 + c =~= seq![false] + (b + c));
            assert(d1 + c =~= seq![true] + (b + c));
            assert(h(d0 + c) == field::times(vertex_weight(a, d0), g(c)));
            assert(h(d1 + c) == field::times(vertex_weight(a, d1), g(c)));
            assert(d0.skip(1) =~= b);
            assert(d1.skip(1) =~= b);
            let e = vertex_weight(at, b);
            lemma_vertex_weight(at, b);
            assert(g(c).len() == 128);
            // (u e) g = e (g u)
            lemma_carry_over(u, e, g(c));
            lemma_carry_over(a[0], e, g(c));
        }
        let t = spread(g, none, y, z);
        lemma_spread_shaped(g, none, y, z);
        lemma_factors_first(t, a, x);
        lemma_step_spread(g, none, y, z, a[0], x[0]);
        lemma_spread_shaped(gu, none, y0, z);
        lemma_spread_shaped(ga, none, y1, z);
        lemma_factors_sum(spread(gu, none, y0, z), spread(ga, none, y1, z), at, xt);
        lemma_factors_spread(gu, h0, at, xt, y0, z);
        lemma_factors_spread(ga, h1, at, xt, y1, z);
        let all = x + z;
        assert(all.skip(1) =~= xt + z);
        assert(all[0] == x[0]);
        let (n0, n1) = (none.push(false), none.push(true));
        assert forall|b: Seq<bool>| b.len() == (xt + z).len() implies h0(none + b) == h(
            #[trigger] (n0 + b),
        ) by {
            assert(none + b =~= b);
            assert(n0 + b =~= seq![false] + b);
        }
        assert forall|b: Seq<bool>| b.len() == (xt + z).len() implies h1(none + b) == h(
            #[trigger] (n1 + b),
        ) by {
            assert(none + b =~= b);
            assert(n1 + b =~= seq![true] + b);
        }
        lemma_spread_ext(h0, none, h, n0, y0, xt + z);
        lemma_spread_ext(h1, none, h, n1, y1, xt + z);
    }
}

proof fn lemma_carry_over(u: Elt, e: Elt, g: Elt)
    requires
        u.len() == 128,
        e.len() == 128,
        g.len() == 128,
    ensures
        field::times(field::times(u, e), g) == field::times(e, field::times(g, u)),
{
    field::lemma_level_128();
    field::law_times_comm(u, e);
    field::law_times_assoc(e, u, g);
    field::law_times_comm(u, g);
}

/// A sum without left factors.
proof fn lemma_spread_none(h: Left, s: Seq<bool>, y: Elt, x: Seq<Elt>)
    requires
        forall|b: Seq<bool>| b.len() == x.len() ==> h(#[trigger] (s + b)) == field::zero128(),
        y.len() == 128,
        multilinear::point::<Binary>(x),
    ensures
        spread(h, s, y, x) == stark_model::tensor_zero(),
    decreases x.len(),
{
    field::lemma_level_128();
    let zero = stark_model::tensor_zero();
    if x.len() == 0 {
        let e = Seq::<bool>::empty();
        assert(s + e =~= s);
        assert(h(s + e) == field::zero128());
        let t = stark_model::exterior(h(s), y);
        assert forall|u: int| 0 <= u < DIM implies t[u] == zero[u] by {}
        assert(t =~= zero);
    } else {
        lemma_skip(x);
        let v = field::plus(field::one128(), x[0]);
        field::lemma_times_len(y, v);
        field::lemma_times_len(y, x[0]);
        assert forall|c: bool, b: Seq<bool>| b.len() == x.len() - 1 implies h(
            #[trigger] (s.push(c) + b),
        ) == field::zero128() by {
            let d = seq![c] + b;
            assert(s.push(c) + b =~= s + d);
            assert(h(s + d) == field::zero128());
        }
        lemma_spread_none(h, s.push(false), field::times(y, v), x.skip(1));
        lemma_spread_none(h, s.push(true), field::times(y, x[0]), x.skip(1));
        field::law_plus_self(field::zero128());
        assert(stark_model::tensor_plus(zero, zero) =~= zero);
    }
}

/// A sum with one left factor, at the vertex of all zeros or all ones.
proof fn lemma_spread_corner(h: Left, s: Seq<bool>, y: Elt, x: Seq<Elt>, high: bool, d: Elt)
    requires
        forall|b: Seq<bool>|
            b.len() == x.len() ==> h(#[trigger] (s + b)) == (if stark_laws::row_number(b) == (
            if high {
                pow2(b.len()) - 1
            } else {
                0int
            }) {
                d
            } else {
                field::zero128()
            }),
        d.len() == 128,
        y.len() == 128,
        multilinear::point::<Binary>(x),
    ensures
        spread(h, s, y, x) == stark_model::exterior(
            d,
            field::times(
                if high {
                    ones(x)
                } else {
                    zeros(x)
                },
                y,
            ),
        ),
    decreases x.len(),
{
    field::lemma_level_128();
    vstd::arithmetic::power2::lemma2_to64();
    let zero = field::zero128();
    let e = Seq::<bool>::empty();
    if x.len() == 0 {
        assert(s + e =~= s);
        assert(h(s + e) == d);
        field::law_times_one(y);
    } else {
        lemma_skip(x);
        let v = field::plus(field::one128(), x[0]);
        let t = x.skip(1);
        field::lemma_times_len(y, v);
        field::lemma_times_len(y, x[0]);
        assert forall|c: bool, b: Seq<bool>| b.len() == t.len() implies h(
            #[trigger] (s.push(c) + b),
        ) == (if c == high && stark_laws::row_number(b) == (if high {
            pow2(b.len()) - 1
        } else {
            0int
        }) {
            d
        } else {
            zero
        }) by {
            let f = seq![c] + b;
            assert(s.push(c) + b =~= s + f);
            assert(f.skip(1) =~= b);
            lemma_corner_rows(f);
            assert(h(s + f) == h(s.push(c) + b));
        }
        let (y0, y1) = (field::times(y, v), field::times(y, x[0]));
        lemma_corners(t);
        if high {
            lemma_spread_none(h, s.push(false), y0, t);
            lemma_spread_corner(h, s.push(true), y1, t, high, d);
            // ones(t) (y x0) = (ones(t) x0) y
            field::law_times_comm(y, x[0]);
            field::law_times_assoc(ones(t), x[0], y);
            let r = stark_model::exterior(d, field::times(ones(t), y1));
            field::lemma_times_len(ones(t), y1);
            lemma_exterior_shaped(d, field::times(ones(t), y1));
            stark_laws::lemma_tensor_sums(r);
        } else {
            lemma_spread_corner(h, s.push(false), y0, t, high, d);
            lemma_spread_none(h, s.push(true), y1, t);
            field::law_times_comm(y, v);
            field::law_times_assoc(zeros(t), v, y);
            let r = stark_model::exterior(d, field::times(zeros(t), y0));
            field::lemma_times_len(zeros(t), y0);
            lemma_exterior_shaped(d, field::times(zeros(t), y0));
            stark_laws::lemma_tensor_sums(r);
        }
    }
}

pub open spec fn prior_left(z: Seq<Elt>) -> Left {
    |b: Seq<bool>| prior_weight(z, b)
}

proof fn lemma_prior_ok(z: Seq<Elt>)
    requires
        multilinear::point::<Binary>(z),
    ensures
        left_ok(prior_left(z), z.len()),
        left_ok(plain_left(z), z.len()),
{
    assert forall|b: Seq<bool>| b.len() == z.len() implies (#[trigger] prior_left(z)(b)).len()
        == 128 by {
        if stark_laws::row_number(b) != 0 {
            lemma_vertex_weight(z, row_before(b));
        }
    }
    assert forall|b: Seq<bool>| b.len() == z.len() implies (#[trigger] plain_left(z)(b)).len()
        == 128 by {
        lemma_vertex_weight(z, b);
    }
}

/// The successor element is the sum whose left factors are the weights of the row
/// before: it extends the relation of a row and the next to every two points.
pub proof fn law_successor_is_a_sum(p: Seq<Elt>, o: Seq<Elt>)
    requires
        multilinear::point::<Binary>(p),
        multilinear::point::<Binary>(o),
        p.len() == o.len(),
    ensures
        stark_model::successor_element(p, o) == spread(
            prior_left(p),
            Seq::empty(),
            field::one128(),
            o,
        ),
{
    lemma_successor_from(p, o, 0);
    assert(p.skip(0) =~= p);
    assert(o.skip(0) =~= o);
}

proof fn lemma_successor_from(p: Seq<Elt>, o: Seq<Elt>, k: int)
    requires
        multilinear::point::<Binary>(p),
        multilinear::point::<Binary>(o),
        p.len() == o.len(),
        0 <= k <= p.len(),
    ensures
        stark_model::successor_from(p, o, k) == (
            spread(prior_left(p.skip(k)), Seq::empty(), field::one128(), o.skip(k)),
            ones(p.skip(k)),
            zeros(o.skip(k)),
        ),
    decreases p.len() - k,
{
    field::lemma_level_128();
    let none = Seq::<bool>::empty();
    let one = field::one128();
    if k == p.len() {
        assert(stark_laws::row_number(none) == 0);
        assert forall|b: Seq<bool>| b.len() == o.skip(k).len() implies prior_left(p.skip(k))(
            #[trigger] (none + b),
        ) == field::zero128() by {
            assert(none + b =~= none);
        }
        assert(multilinear::point::<Binary>(o.skip(k)));
        lemma_spread_none(prior_left(p.skip(k)), none, one, o.skip(k));
    } else {
        lemma_successor_from(p, o, k + 1);
        let (pk, ok) = (p.skip(k), o.skip(k));
        assert forall|i: int| 0 <= i < pk.len() implies Binary::has(#[trigger] pk[i]) by {
            assert(Binary::has(p[i + k]));
        }
        assert forall|i: int| 0 <= i < ok.len() implies Binary::has(#[trigger] ok[i]) by {
            assert(Binary::has(o[i + k]));
        }
        lemma_skip(pk);
        lemma_skip(ok);
        let (pt, ot) = (pk.skip(1), ok.skip(1));
        assert(pt =~= p.skip(k + 1));
        assert(ot =~= o.skip(k + 1));
        let (a, b) = (p[k], o[k]);
        assert(pk[0] == a && ok[0] == b);
        let (u, v) = (field::plus(one, a), field::plus(one, b));
        let g = prior_left(pt);
        let h = prior_left(pk);
        lemma_prior_ok(pt);
        lemma_step_spread(g, none, one, ot, a, b);
        field::law_times_one(v);
        field::law_times_one(b);
        let (y0, y1) = (field::times(one, v), field::times(one, b));
        let (gu, ga) = (scaled(g, u), scaled(g, a));
        lemma_corners(pt);
        lemma_corners(ot);
        let d = field::times(ones(pt), u);
        field::lemma_times_len(ones(pt), u);
        let corner = |c: Seq<bool>|
            if stark_laws::row_number(c) == 0 {
                d
            } else {
                field::zero128()
            };
        let (n0, n1) = (none.push(false), none.push(true));
        assert forall|c: Seq<bool>| c.len() == ot.len() implies gu(none + c) == h(
            #[trigger] (n0 + c),
        ) by {
            lemma_prior(pk, c);
            assert(none + c =~= c);
            assert(n0 + c =~= seq![false] + c);
        }
        lemma_spread_ext(gu, none, h, n0, y0, ot);
        let both = |c: Seq<bool>| h(seq![true] + c);
        assert forall|c: Seq<bool>| c.len() == ot.len() implies {
            &&& ga(none + c).len() == 128
            &&& corner(none + c).len() == 128
            &&& both(#[trigger] (none + c)) == field::plus(ga(none + c), corner(none + c))
        } by {
            lemma_prior(pk, c);
            assert(none + c =~= c);
            field::lemma_times_len(g(c), a);
        }
        lemma_spread_sum(ga, corner, both, none, y1, ot);
        assert forall|c: Seq<bool>| c.len() == ot.len() implies both(none + c) == h(
            #[trigger] (n1 + c),
        ) by {
            assert(none + c =~= c);
            assert(n1 + c =~= seq![true] + c);
        }
        lemma_spread_ext(both, none, h, n1, y1, ot);
        assert forall|c: Seq<bool>| c.len() == ot.len() implies corner(#[trigger] (none + c)) == (
        if stark_laws::row_number(c) == (if false {
            pow2(c.len()) - 1
        } else {
            0int
        }) {
            d
        } else {
            field::zero128()
        }) by {
            assert(none + c =~= c);
        }
        lemma_spread_corner(corner, none, y1, ot, false, d);
        lemma_spread_shaped(gu, none, y0, ot);
        lemma_spread_shaped(ga, none, y1, ot);
        field::lemma_times_len(zeros(ot), y1);
        lemma_exterior_shaped(d, field::times(zeros(ot), y1));
        lemma_tensor_assoc(
            spread(gu, none, y0, ot),
            spread(ga, none, y1, ot),
            stark_model::exterior(d, field::times(zeros(ot), y1)),
        );
    }
}

// ---------------------------------------------------------------------------
// Honest tensors.
// ---------------------------------------------------------------------------

/// The batched left factors as a function of all coordinates, those of `front`
/// fixed.
pub open spec fn weight_poly(h: Left, w: Seq<Elt>, front: nat) -> Poly {
    |p: Seq<Elt>| extended(h, w, Seq::empty(), p.skip(front as int))
}

proof fn lemma_weight_poly(h: Left, w: Seq<Elt>, front: nat, n: nat)
    requires
        left_ok(h, n),
        weights_ok(w),
    ensures
        multilinear::polynomial::<Binary>(weight_poly(h, w, front), front + n),
{
    let a = weight_poly(h, w, front);
    let none = Seq::<bool>::empty();
    let (zero, one) = (field::zero128(), field::one128());
    assert forall|p: Seq<Elt>|
        multilinear::point::<Binary>(p) && p.len() == front + n implies multilinear::point::<
        Binary,
    >(#[trigger] p.skip(front as int)) by {
        let t = p.skip(front as int);
        assert forall|i: int| 0 <= i < t.len() implies Binary::has(#[trigger] t[i]) by {
            assert(Binary::has(p[i + front]));
        }
    }
    assert forall|p: Seq<Elt>|
        multilinear::point::<Binary>(p) && p.len() == front + n implies Binary::has(
        #[trigger] a(p),
    ) by {
        lemma_dot_spread(h, none, one, p.skip(front as int), w);
    }
    assert forall|p: Seq<Elt>, k: int, x: Elt|
        multilinear::point::<Binary>(p) && p.len() == front + n && 0 <= k < front + n
            && Binary::has(x) implies #[trigger] multilinear::affine_at::<Binary>(a, p, k, x) by {
        let t = p.skip(front as int);
        if k < front {
            assert(p.update(k, x).skip(front as int) =~= t);
            assert(p.update(k, zero).skip(front as int) =~= t);
            assert(p.update(k, one).skip(front as int) =~= t);
            lemma_dot_spread(h, none, one, t, w);
            let e = extended(h, w, none, t);
            multilinear::lemma_lerp::<Binary>(e, e, e, e, x);
        } else {
            let j = k - front;
            assert(p.update(k, x).skip(front as int) =~= t.update(j, x));
            assert(p.update(k, zero).skip(front as int) =~= t.update(j, zero));
            assert(p.update(k, one).skip(front as int) =~= t.update(j, one));
            lemma_extended_affine(h, w, none, t, j, x);
        }
    }
}

proof fn lemma_tensor_sum_shaped(h: Left, f: Poly, front: Seq<Elt>, s: Seq<bool>, n: nat)
    requires
        multilinear::polynomial::<Binary>(f, front.len() + s.len() + n),
        multilinear::point::<Binary>(front),
    ensures
        stark_model::tensor_shaped(tensor_sum(h, f, front, s, n)),
    decreases n,
{
    if n == 0 {
        lemma_row_point(s);
        multilinear::lemma_point_join::<Binary>(front, stark_laws::row_point(s));
        assert(Binary::has(f(front + stark_laws::row_point(s))));
        lemma_exterior_shaped(h(s), f(front + stark_laws::row_point(s)));
    } else {
        let m = (n - 1) as nat;
        lemma_tensor_sum_shaped(h, f, front, s.push(false), m);
        lemma_tensor_sum_shaped(h, f, front, s.push(true), m);
        stark_model::lemma_tensor_plus_shaped(
            tensor_sum(h, f, front, s.push(false), m),
            tensor_sum(h, f, front, s.push(true), m),
        );
    }
}

/// Batching the rows of an honest tensor sums the packed polynomial times the
/// batched left factors over the hypercube.
pub proof fn law_tensor_is_a_cube_sum(
    h: Left,
    f: Poly,
    front: Seq<Elt>,
    s: Seq<bool>,
    n: nat,
    w: Seq<Elt>,
)
    requires
        left_ok(h, s.len() + n),
        weights_ok(w),
        multilinear::polynomial::<Binary>(f, front.len() + s.len() + n),
        multilinear::point::<Binary>(front),
    ensures
        stark_model::dot(tensor_sum(h, f, front, s, n), w) == multilinear::cube_sum::<Binary>(
            multilinear::product::<Binary>(f, weight_poly(h, w, front.len())),
            front + stark_laws::row_point(s),
            n,
        ),
    decreases n,
{
    field::lemma_level_128();
    let p = front + stark_laws::row_point(s);
    let none = Seq::<bool>::empty();
    let a = weight_poly(h, w, front.len());
    let t = tensor_sum(h, f, front, s, n);
    lemma_tensor_sum_shaped(h, f, front, s, n);
    assert(t.take(128) =~= t);
    lemma_row_point(s);
    multilinear::lemma_point_join::<Binary>(front, stark_laws::row_point(s));
    if n == 0 {
        let x = Seq::<Elt>::empty();
        assert(h(s).len() == 128);
        assert(Binary::has(f(p)));
        lemma_dot_exterior(h(s), f(p), w, 128);
        lemma_extended_vertex(h, w, none, s, x);
        assert(stark_laws::row_point(s) + x =~= p.skip(front.len() as int));
        assert(none + s =~= s);
        field::law_times_comm(chosen(h(s), w, 128), f(p));
    } else {
        let m = (n - 1) as nat;
        let (s0, s1) = (s.push(false), s.push(true));
        law_tensor_is_a_cube_sum(h, f, front, s0, m, w);
        law_tensor_is_a_cube_sum(h, f, front, s1, m, w);
        assert(front + stark_laws::row_point(s0) =~= p.push(field::zero128()));
        assert(front + stark_laws::row_point(s1) =~= p.push(field::one128()));
        let (t0, t1) = (tensor_sum(h, f, front, s0, m), tensor_sum(h, f, front, s1, m));
        lemma_tensor_sum_shaped(h, f, front, s0, m);
        lemma_tensor_sum_shaped(h, f, front, s1, m);
        assert(t0.take(128) =~= t0);
        assert(t1.take(128) =~= t1);
        lemma_dot_sum(t0, t1, w, 128);
    }
}

/// The coordinates that a packed element keeps: those before the last seven.
pub open spec fn high_point(cfg: Config, d: StarkDraws) -> Seq<Elt> {
    let point = d.c + d.r;
    point.take(point.len() - 7)
}

/// The column coordinates among those that the sumcheck binds: all but the row
/// coordinates that a packed element keeps.
pub open spec fn column_coordinates(cfg: Config, d: StarkDraws) -> int {
    high_point(cfg, d).len() - d.prefix - (cfg.log_height - 7)
}

/// The batched weight: the plain one and, under `a`, those of the row before and
/// of the last row.
pub open spec fn switch_poly(cfg: Config, d: StarkDraws, w: Seq<Elt>) -> Poly {
    let rest = high_point(cfg, d).skip(d.prefix as int);
    let k = column_coordinates(cfg, d);
    match d.alpha_rs {
        Some(a) => |p: Seq<Elt>|
            field::plus(
                weight_poly(plain_left(rest), w, d.prefix)(p),
                field::times(
                    a,
                    field::plus(
                        weight_poly(carry_left(rest, k), w, d.prefix)(p),
                        field::times(a, weight_poly(last_left(rest, k), w, d.prefix)(p)),
                    ),
                ),
            ),
        None => weight_poly(plain_left(rest), w, d.prefix),
    }
}

/// The ring switch of the packed polynomial `f` is honest: its tensors are the
/// sums of `f`'s values, against the weights of their own vertices, of the rows
/// before, and of the last rows; its sumcheck's messages are true; and its last
/// value is `f`'s.
pub open spec fn honest_switch(f: Poly, cfg: Config, p: StarkM, d: StarkDraws) -> bool {
    let high = high_point(cfg, d);
    let front = high.take(d.prefix as int);
    let rest = high.skip(d.prefix as int);
    let n = rest.len();
    let none = Seq::<bool>::empty();
    let k = column_coordinates(cfg, d);
    let w = stark_model::eq_table(d.r_batch);
    &&& d.c.len() + d.r.len() == stark_model::bit_vars(cfg)
    &&& stark_model::bit_vars(cfg) >= 7
    &&& d.prefix <= high.len()
    &&& multilinear::point::<Binary>(d.c + d.r)
    &&& multilinear::point::<Binary>(d.r_prime)
    &&& multilinear::point::<Binary>(d.r_batch)
    &&& d.r_batch.len() == 7
    &&& d.r_prime.len() == n
    &&& p.rs_sumcheck.len() == n
    &&& multilinear::polynomial::<Binary>(f, high.len())
    &&& p.tensor == tensor_sum(plain_left(rest), f, front, none, n)
    &&& match (p.successor, d.alpha_rs) {
        (Some((carry, last)), Some(a)) => {
            &&& cfg.log_height > 7
            &&& a.len() == 128
            &&& 0 <= k
            &&& carry == tensor_sum(carry_left(rest, k), f, front, none, n)
            &&& last == tensor_sum(last_left(rest, k), f, front, none, n)
        },
        (None, None) => cfg.log_height <= 7,
        _ => false,
    }
    &&& multilinear::all_truthful::<Binary>(
        f,
        switch_poly(cfg, d, w),
        front,
        high.len(),
        p.rs_sumcheck,
        d.r_prime,
    )
    &&& p.final_eval == f(front + d.r_prime)
}

proof fn lemma_switch_claim(sum: Elt, msgs: Seq<(Elt, Elt)>, r: Seq<Elt>, k: nat)
    requires
        k <= msgs.len(),
    ensures
        multilinear::claim_through::<Binary>(sum, msgs, r, k) == stark_model::switch_claim(
            sum,
            msgs.take(k as int),
            r,
        ),
    decreases k,
{
    if k > 0 {
        lemma_switch_claim(sum, msgs, r, (k - 1) as nat);
        assert(msgs.take(k as int).drop_last() =~= msgs.take(k - 1));
    }
}

proof fn lemma_eq_table(point: Seq<Elt>)
    requires
        multilinear::point::<Binary>(point),
    ensures
        stark_model::eq_table(point).len() == pow2(point.len()),
        multilinear::point::<Binary>(stark_model::eq_table(point)),
    decreases point.len(),
{
    field::lemma_level_128();
    vstd::arithmetic::power2::lemma2_to64();
    let t = stark_model::eq_table(point);
    if point.len() == 0 {
        assert forall|i: int| 0 <= i < t.len() implies Binary::has(#[trigger] t[i]) by {}
    } else {
        lemma_front(point);
        lemma_eq_table(point.drop_last());
        lemma_pow2_unfold(point.len());
        let half = stark_model::eq_table(point.drop_last());
        assert forall|i: int| 0 <= i < t.len() implies Binary::has(#[trigger] t[i]) by {
            assert(Binary::has(half[i / 2]));
            field::lemma_times_len(half[i / 2], point.last());
            field::lemma_times_len(
                half[i / 2],
                field::plus(field::one128(), point.last()),
            );
        }
    }
}

/// The closing weight's three parts, batched.
proof fn lemma_weights(rest: Seq<Elt>, x: Seq<Elt>, k: int, w: Seq<Elt>)
    requires
        multilinear::point::<Binary>(rest),
        multilinear::point::<Binary>(x),
        rest.len() == x.len(),
        0 <= k <= rest.len(),
        weights_ok(w),
    ensures
        left_ok(plain_left(rest), rest.len()),
        left_ok(carry_left(rest, k), rest.len()),
        left_ok(last_left(rest, k), rest.len()),
        stark_model::dot(stark_model::equality_element(rest, x), w) == extended(
            plain_left(rest),
            w,
            Seq::empty(),
            x,
        ),
        stark_model::dot(
            stark_model::equality_factors(
                stark_model::successor_element(rest.skip(k), x.skip(k)),
                rest.take(k),
                x.take(k),
            ),
            w,
        ) == extended(carry_left(rest, k), w, Seq::empty(), x),
        stark_model::dot(
            stark_model::equality_factors(
                stark_model::exterior(
                    stark_model::product(rest.skip(k)),
                    stark_model::product(x.skip(k)),
                ),
                rest.take(k),
                x.take(k),
            ),
            w,
        ) == extended(last_left(rest, k), w, Seq::empty(), x),
{
    field::lemma_level_128();
    let none = Seq::<bool>::empty();
    let one = field::one128();
    let empty = Seq::<Elt>::empty();
    lemma_prior_ok(rest);
    // The plain part: all coordinates in front of `1 (x) 1`.
    let unit = |b: Seq<bool>| one;
    assert forall|b: Seq<bool>, c: Seq<bool>|
        b.len() == rest.len() && c.len() == empty.len() implies plain_left(rest)(
        #[trigger] (b + c),
    ) == field::times(vertex_weight(rest, b), unit(c)) by {
        assert(b + c =~= b);
        lemma_vertex_weight(rest, b);
        field::law_times_one(vertex_weight(rest, b));
    }
    lemma_factors_spread(unit, plain_left(rest), rest, x, one, empty);
    assert(stark_model::tensor_one() =~= stark_model::exterior(one, one)) by {
        assert forall|u: int| 0 <= u < DIM implies stark_model::tensor_one()[u]
            == stark_model::exterior(one, one)[u] by {}
    }
    assert(x + empty =~= x);
    lemma_dot_spread(plain_left(rest), none, one, x, w);
    field::law_times_one(extended(plain_left(rest), w, none, x));
    // The other two, over the row coordinates.
    let (rf, rt) = (rest.take(k), rest.skip(k));
    let (xf, xt) = (x.take(k), x.skip(k));
    lemma_cut(rest, k);
    lemma_cut(x, k);
    assert(xf + xt =~= x);
    lemma_prior_ok(rt);
    let g = prior_left(rt);
    let ends = |b: Seq<bool>| last_weight(rt, b);
    assert forall|b: Seq<bool>| b.len() == rt.len() implies (#[trigger] ends(b)).len() == 128 by {
        lemma_vertex_weight(rt, b);
    }
    assert forall|b: Seq<bool>| b.len() == rest.len() implies (#[trigger] carry_left(rest, k)(
        b,
    )).len() == 128 by {
        let (bf, bt) = (b.take(k), b.skip(k));
        lemma_vertex_weight(rf, bf);
        assert(g(bt).len() == 128);
        field::lemma_times_len(vertex_weight(rf, bf), g(bt));
    }
    assert forall|b: Seq<bool>| b.len() == rest.len() implies (#[trigger] last_left(rest, k)(
        b,
    )).len() == 128 by {
        let (bf, bt) = (b.take(k), b.skip(k));
        lemma_vertex_weight(rf, bf);
        assert(ends(bt).len() == 128);
        field::lemma_times_len(vertex_weight(rf, bf), ends(bt));
    }
    assert forall|b: Seq<bool>, c: Seq<bool>|
        b.len() == rf.len() && c.len() == xt.len() implies carry_left(rest, k)(#[trigger] (b + c))
        == field::times(vertex_weight(rf, b), g(c)) && last_left(rest, k)(b + c) == field::times(
        vertex_weight(rf, b),
        ends(c),
    ) by {
        assert((b + c).take(k) =~= b);
        assert((b + c).skip(k) =~= c);
    }
    law_successor_is_a_sum(rt, xt);
    lemma_factors_spread(g, carry_left(rest, k), rf, xf, one, xt);
    lemma_dot_spread(carry_left(rest, k), none, one, x, w);
    field::law_times_one(extended(carry_left(rest, k), w, none, x));
    lemma_product(rt);
    lemma_product(xt);
    assert forall|b: Seq<bool>| b.len() == xt.len() implies ends(#[trigger] (none + b)) == (
    if stark_laws::row_number(b) == (if true {
        pow2(b.len()) - 1
    } else {
        0int
    }) {
        ones(rt)
    } else {
        field::zero128()
    }) by {
        assert(none + b =~= b);
        if stark_laws::row_number(b) == pow2(b.len()) - 1 {
            lemma_ones_weight(rt, b);
        }
    }
    lemma_corners(rt);
    lemma_corners(xt);
    lemma_spread_corner(ends, none, one, xt, true, ones(rt));
    field::law_times_one(ones(xt));
    lemma_factors_spread(ends, last_left(rest, k), rf, xf, one, xt);
    lemma_dot_spread(last_left(rest, k), none, one, x, w);
    field::law_times_one(extended(last_left(rest, k), w, none, x));
}

proof fn lemma_cut(x: Seq<Elt>, k: int)
    requires
        multilinear::point::<Binary>(x),
        0 <= k <= x.len(),
    ensures
        multilinear::point::<Binary>(x.take(k)),
        multilinear::point::<Binary>(x.skip(k)),
{
    let (a, b) = (x.take(k), x.skip(k));
    assert forall|i: int| 0 <= i < a.len() implies Binary::has(#[trigger] a[i]) by {
        assert(Binary::has(x[i]));
    }
    assert forall|i: int| 0 <= i < b.len() implies Binary::has(#[trigger] b[i]) by {
        assert(Binary::has(x[i + k]));
    }
}

/// Three weights under the powers of `c`.
proof fn lemma_three_sums(
    f: Poly,
    a0: Poly,
    a1: Poly,
    a2: Poly,
    v: Poly,
    c: Elt,
    front: Seq<Elt>,
    n: nat,
)
    requires
        multilinear::polynomial::<Binary>(f, front.len() + n),
        multilinear::polynomial::<Binary>(a0, front.len() + n),
        multilinear::polynomial::<Binary>(a1, front.len() + n),
        multilinear::polynomial::<Binary>(a2, front.len() + n),
        multilinear::point::<Binary>(front),
        c.len() == 128,
        forall|q: Seq<Elt>|
            #[trigger] v(q) == field::plus(
                a0(q),
                field::times(c, field::plus(a1(q), field::times(c, a2(q)))),
            ),
    ensures
        multilinear::polynomial::<Binary>(v, front.len() + n),
        multilinear::cube_sum::<Binary>(multilinear::product::<Binary>(f, v), front, n)
            == stark_model::with_successor(
            multilinear::cube_sum::<Binary>(multilinear::product::<Binary>(f, a0), front, n),
            c,
            multilinear::cube_sum::<Binary>(multilinear::product::<Binary>(f, a1), front, n),
            multilinear::cube_sum::<Binary>(multilinear::product::<Binary>(f, a2), front, n),
        ),
{
    let m = front.len() + n;
    let inner = |q: Seq<Elt>| field::plus(a1(q), field::times(c, a2(q)));
    multilinear::lemma_polynomial_sum::<Binary>(a1, a2, inner, c, m);
    multilinear::lemma_polynomial_sum::<Binary>(a0, inner, v, c, m);
    let (g0, g1, g2) = (
        multilinear::product::<Binary>(f, a0),
        multilinear::product::<Binary>(f, a1),
        multilinear::product::<Binary>(f, a2),
    );
    let (gi, gv) = (multilinear::product::<Binary>(f, inner), multilinear::product::<Binary>(f, v));
    multilinear::lemma_product_total::<Binary>(f, a0, m);
    multilinear::lemma_product_total::<Binary>(f, a1, m);
    multilinear::lemma_product_total::<Binary>(f, a2, m);
    multilinear::lemma_product_total::<Binary>(f, inner, m);
    lemma_product_linear(f, a1, a2, inner, c, m);
    lemma_product_linear(f, a0, inner, v, c, m);
    multilinear::lemma_cube_linear::<Binary>(g1, g2, gi, c, front, n);
    multilinear::lemma_cube_linear::<Binary>(g0, gi, gv, c, front, n);
}

/// An honest ring switch closes, whatever is drawn, and whatever the numbers of
/// columns and rows.
#[verifier::rlimit(60)]
pub proof fn law_honest_switches_close(f: Poly, cfg: Config, p: StarkM, d: StarkDraws)
    requires
        honest_switch(f, cfg, p, d),
    ensures
        stark_model::switch_closes(cfg, p, d),
{
    field::lemma_level_128();
    vstd::arithmetic::power2::lemma2_to64();
    let high = high_point(cfg, d);
    let point = d.c + d.r;
    assert(high == stark_model::bit_point(d).take(stark_model::packed_vars(cfg) as int));
    let front = high.take(d.prefix as int);
    let rest = high.skip(d.prefix as int);
    let n = rest.len();
    let none = Seq::<bool>::empty();
    let x = d.r_prime;
    let w = stark_model::eq_table(d.r_batch);
    let v = switch_poly(cfg, d, w);
    lemma_eq_table(d.r_batch);
    lemma_cut(point, point.len() - 7);
    lemma_cut(high, d.prefix as int);
    let k = if cfg.log_height > 7 {
        column_coordinates(cfg, d)
    } else {
        0
    };
    lemma_weights(rest, x, k, w);
    let a0 = weight_poly(plain_left(rest), w, d.prefix);
    lemma_weight_poly(plain_left(rest), w, d.prefix, n);
    law_tensor_is_a_cube_sum(plain_left(rest), f, front, none, n, w);
    let start = front + stark_laws::row_point(none);
    assert(start =~= front);
    let all = front + x;
    multilinear::lemma_point_join::<Binary>(front, x);
    assert(all.skip(d.prefix as int) =~= x);
    if cfg.log_height > 7 {
        let a = d.alpha_rs->0;
        let a1 = weight_poly(carry_left(rest, k), w, d.prefix);
        let a2 = weight_poly(last_left(rest, k), w, d.prefix);
        lemma_weight_poly(carry_left(rest, k), w, d.prefix, n);
        lemma_weight_poly(last_left(rest, k), w, d.prefix, n);
        law_tensor_is_a_cube_sum(carry_left(rest, k), f, front, none, n, w);
        law_tensor_is_a_cube_sum(last_left(rest, k), f, front, none, n, w);
        lemma_three_sums(f, a0, a1, a2, v, a, front, n);
        let gv = multilinear::product::<Binary>(f, v);
        assert(stark_model::switch_sum(p, d) == multilinear::cube_sum::<Binary>(gv, front, n));
        assert(rest.len() - stark_model::kept_rows(cfg) == k);
        assert(stark_model::switch_weight(cfg, p, d) == v(all));
    } else {
        assert(stark_model::switch_sum(p, d) == multilinear::cube_sum::<Binary>(
            multilinear::product::<Binary>(f, v),
            front,
            n,
        ));
        assert(stark_model::switch_weight(cfg, p, d) == v(all));
    }
    multilinear::law_sumcheck::<Binary>(f, v, front, high.len(), p.rs_sumcheck, x, n);
    lemma_switch_claim(stark_model::switch_sum(p, d), p.rs_sumcheck, x, n);
    assert(x.take(n as int) =~= x);
    assert(Binary::has(f(all)) && Binary::has(v(all)));
    field::law_times_comm(f(all), v(all));
}

/// Products are linear in the weight.
proof fn lemma_product_linear(f: Poly, a: Poly, b: Poly, v: Poly, c: Elt, n: nat)
    requires
        multilinear::polynomial::<Binary>(f, n),
        multilinear::polynomial::<Binary>(a, n),
        multilinear::polynomial::<Binary>(b, n),
        c.len() == 128,
        forall|q: Seq<Elt>|
            multilinear::point::<Binary>(q) && q.len() == n ==> #[trigger] v(q) == Binary::plus(
                a(q),
                Binary::times(c, b(q)),
            ),
    ensures
        forall|q: Seq<Elt>|
            multilinear::point::<Binary>(q) && q.len() == n ==> #[trigger] multilinear::product::<
                Binary,
            >(f, v)(q) == Binary::plus(
                multilinear::product::<Binary>(f, a)(q),
                Binary::times(c, multilinear::product::<Binary>(f, b)(q)),
            ),
{
    assert forall|q: Seq<Elt>|
        multilinear::point::<Binary>(q) && q.len() == n implies #[trigger] multilinear::product::<
        Binary,
    >(f, v)(q) == Binary::plus(
        multilinear::product::<Binary>(f, a)(q),
        Binary::times(c, multilinear::product::<Binary>(f, b)(q)),
    ) by {
        assert(v(q) == Binary::plus(a(q), Binary::times(c, b(q))));
        assert(Binary::has(f(q)) && Binary::has(a(q)) && Binary::has(b(q)));
        Binary::closed(c, b(q));
        Binary::products(f(q), a(q), Binary::times(c, b(q)));
        Binary::products(f(q), c, b(q));
        Binary::products(c, f(q), b(q));
    }
}

} // verus!

//! Values of a program as functions of the data it runs on.
//!
//! A slot of a stack holds, for every data, some number. A program's meaning on
//! all data at once is then one list of such functions per stack, and the
//! arithmetic on them is the verifier's, value by value.
use super::model;
use super::script;
use super::script::{effect, Op};
use super::sponge;
use super::sponge::Action;
use crate::poseidon2::ext4;
use crate::poseidon2::ext4::Quad;
use crate::poseidon2::field;
use crate::poseidon2::reference as permutation;
use vstd::arithmetic::power2::pow2;
use vstd::prelude::*;

verus! {

/// A number for every data.
pub type Val = spec_fn(Seq<int>) -> int;

/// A condition on the data.
pub type Cond = spec_fn(Seq<int>) -> bool;

/// An extension element for every data.
pub struct Sym {
    pub a: Val,
    pub b: Val,
    pub c: Val,
    pub d: Val,
}

impl Sym {
    /// Its value on `u`.
    pub open spec fn at(self, u: Seq<int>) -> Quad {
        Quad { a: (self.a)(u), b: (self.b)(u), c: (self.c)(u), d: (self.d)(u) }
    }
}

/// The values of a list of slots on `u`.
pub open spec fn at(s: Seq<Val>, u: Seq<int>) -> Seq<int> {
    Seq::new(s.len(), |i: int| s[i](u))
}

/// The values of a list of extension elements on `u`.
pub open spec fn ats(qs: Seq<Sym>, u: Seq<int>) -> Seq<Quad> {
    Seq::new(qs.len(), |i: int| qs[i].at(u))
}

/// The same number whatever the data.
pub open spec fn constant(v: int) -> Val {
    |u: Seq<int>| v
}

/// Element `i` of the data.
pub open spec fn datum(i: int) -> Val {
    |u: Seq<int>| u[i]
}

/// The extension element from element `i` of the data on.
pub open spec fn element(i: int) -> Sym {
    Sym { a: datum(i), b: datum(i + 1), c: datum(i + 2), d: datum(i + 3) }
}

/// The first `n` elements of the data.
pub open spec fn data(n: nat) -> Seq<Val> {
    Seq::new(n, |i: int| datum(i))
}

/// A list of `n` numbers for every data, as slots.
pub open spec fn slots(n: nat, f: spec_fn(Seq<int>) -> Seq<int>) -> Seq<Val> {
    Seq::new(n, |i: int| |u: Seq<int>| f(u)[i])
}

pub open spec fn sym(f: spec_fn(Seq<int>) -> Quad) -> Sym {
    Sym {
        a: |u: Seq<int>| f(u).a,
        b: |u: Seq<int>| f(u).b,
        c: |u: Seq<int>| f(u).c,
        d: |u: Seq<int>| f(u).d,
    }
}

/// Always.
pub open spec fn always() -> Cond {
    |u: Seq<int>| true
}

pub open spec fn both(p: Cond, q: Cond) -> Cond {
    |u: Seq<int>| p(u) && q(u)
}

pub proof fn lemma_both(p: Cond)
    ensures
        both(p, always()) == p,
{
    assert(both(p, always()) =~= p);
}

/// Nothing on a stack.
pub open spec fn none() -> Seq<Val> {
    Seq::empty()
}

pub proof fn lemma_slots_same(
    n: nat,
    f: spec_fn(Seq<int>) -> Seq<int>,
    g: spec_fn(Seq<int>) -> Seq<int>,
)
    requires
        forall|u: Seq<int>, i: int| 0 <= i < n ==> #[trigger] f(u)[i] == g(u)[i],
    ensures
        slots(n, f) == slots(n, g),
{
    assert forall|i: int| 0 <= i < n implies slots(n, f)[i] == slots(n, g)[i] by {
        assert(slots(n, f)[i] =~= slots(n, g)[i]);
    }
    assert(slots(n, f) =~= slots(n, g));
}

/// What the sponge of the calls drew.
pub open spec fn drawn(calls: Seq<Action>, n: nat) -> Seq<Val> {
    slots(n, |u: Seq<int>| sponge::followed(calls, u).drawn)
}

/// Its state.
pub open spec fn state(calls: Seq<Action>) -> Seq<Val> {
    slots(16, |u: Seq<int>| sponge::followed(calls, u).state)
}

/// Its pending inputs.
pub open spec fn pending(calls: Seq<Action>, n: nat) -> Seq<Val> {
    slots(n, |u: Seq<int>| sponge::followed(calls, u).input)
}

/// The two elements agree.
pub open spec fn same(x: Sym, y: Sym) -> Cond {
    |u: Seq<int>| x.at(u) == y.at(u)
}

// ---------------------------------------------------------------------------
// Base elements.
// ---------------------------------------------------------------------------

pub open spec fn base_times(x: Val, y: Val) -> Val {
    |u: Seq<int>| field::times(x(u), y(u))
}

pub open spec fn base_minus(x: Val, y: Val) -> Val {
    |u: Seq<int>| field::minus(x(u), y(u))
}

pub open spec fn less(x: Val, y: Val) -> Val {
    |u: Seq<int>|
        if x(u) < y(u) {
            1int
        } else {
            0int
        }
}

pub open spec fn at_least(x: Val, y: Val) -> Val {
    |u: Seq<int>|
        if x(u) >= y(u) {
            1int
        } else {
            0int
        }
}

pub open spec fn added_if(x: Val, y: Val, n: int) -> Val {
    |u: Seq<int>|
        if y(u) != 0 {
            x(u) + n
        } else {
            x(u)
        }
}

pub open spec fn equal(x: Val, y: Val) -> Cond {
    |u: Seq<int>| x(u) == y(u)
}

pub open spec fn nonzero(x: Val) -> Cond {
    |u: Seq<int>| x(u) != 0
}

/// The low bits, bit 0 last.
pub open spec fn low_bits(x: Val, n: nat) -> Seq<Val> {
    Seq::new(n, |i: int| |u: Seq<int>| script::bit(x(u), (n - 1 - i) as nat))
}

/// The remainder by `2^i`.
pub open spec fn low(x: Val, i: nat) -> Val {
    |u: Seq<int>| x(u) % (pow2(i) as int)
}

/// The power of a constant at an index of `bits` bits.
pub open spec fn power(gen: int, bits: nat, x: Val) -> Val {
    |u: Seq<int>| field::power(gen, (x(u) % (pow2(bits) as int)) as nat)
}

/// The digest of a row.
pub open spec fn row_digest(row: Seq<Val>) -> Seq<Val> {
    slots(8, |u: Seq<int>| permutation::row_digest(at(row, u)))
}

/// The sponge state after a duplexing.
pub open spec fn permuted(state: Seq<Val>, inputs: Seq<Val>) -> Seq<Val> {
    slots(16, |u: Seq<int>| sponge::permuted(at(state, u), at(inputs, u)))
}

/// What an observation makes of the sponge, on all data.
pub proof fn lemma_observing(calls: Seq<Action>, w: Seq<int>, n: nat, m: nat)
    requires
        n == sponge::followed(calls, w).drawn.len(),
        m == sponge::followed(calls, w).input.len(),
    ensures
        ({
            let c = calls.push(Action::Observe);
            let i = sponge::followed(calls, w).seen.len() as int;
            let input = pending(calls, m).push(datum(i));
            &&& drawn(c, n) == drawn(calls, n)
            &&& m + 1 < sponge::RATE ==> state(c) == state(calls) && pending(c, m + 1) == input
            &&& m + 1 == sponge::RATE ==> state(c) == permuted(state(calls), input)
        }),
{
    let c = calls.push(Action::Observe);
    let i = sponge::followed(calls, w).seen.len() as int;
    let input = pending(calls, m).push(datum(i));
    sponge::law_followed(calls, w, w);
    assert(c.drop_last() =~= calls);
    assert forall|u: Seq<int>| #![trigger sponge::followed(c, u)]
        sponge::followed(c, u) == sponge::observed(sponge::followed(calls, u), u[i])
            && sponge::followed(calls, u).input.len() == m && at(state(calls), u)
            == sponge::followed(calls, u).state && at(input, u) == sponge::followed(
            calls,
            u,
        ).input.push(u[i]) && sponge::followed(calls, u).drawn.len() == n by {
        sponge::law_followed(calls, u, w);
        assert(at(state(calls), u) =~= sponge::followed(calls, u).state);
        assert(at(input, u) =~= sponge::followed(calls, u).input.push(u[i]));
    }
    let f = |u: Seq<int>| sponge::followed(c, u).drawn;
    let g = |u: Seq<int>| sponge::followed(calls, u).drawn;
    lemma_slots_same(n, f, g);
    if m + 1 < sponge::RATE {
        lemma_slots_same(
            16,
            |u: Seq<int>| sponge::followed(c, u).state,
            |u: Seq<int>| sponge::followed(calls, u).state,
        );
        let got = pending(c, m + 1);
        assert forall|j: int| 0 <= j < m + 1 implies got[j] == input[j] by {
            assert forall|u: Seq<int>| #[trigger] got[j](u) == input[j](u) by {
                assert(sponge::followed(c, u).input[j] == at(input, u)[j]);
            }
            assert(got[j] =~= input[j]);
        }
        assert(got =~= input);
    } else {
        lemma_slots_same(
            16,
            |u: Seq<int>| sponge::followed(c, u).state,
            |u: Seq<int>| sponge::permuted(at(state(calls), u), at(input, u)),
        );
    }
}

/// What a sample makes of the sponge, on all data.
pub proof fn lemma_sampling(calls: Seq<Action>, w: Seq<int>, n: nat, m: nat)
    requires
        n == sponge::followed(calls, w).drawn.len(),
        m == sponge::followed(calls, w).input.len(),
    ensures
        ({
            let c = calls.push(Action::Sample);
            let d = sponge::followed(calls, w);
            let refill = m > 0 || d.output.len() == 0;
            let s = if refill {
                permuted(state(calls), pending(calls, m))
            } else {
                state(calls)
            };
            let slot = if refill {
                sponge::RATE - 1
            } else {
                d.output.len() - 1
            };
            &&& state(c) == s
            &&& drawn(c, n + 1) == drawn(calls, n).push(s[slot])
        }),
{
    let c = calls.push(Action::Sample);
    let d = sponge::followed(calls, w);
    let input = pending(calls, m);
    let refill = m > 0 || d.output.len() == 0;
    let s = if refill {
        permuted(state(calls), input)
    } else {
        state(calls)
    };
    let slot = if refill {
        sponge::RATE - 1
    } else {
        d.output.len() - 1
    };
    sponge::law_followed(calls, w, w);
    assert(c.drop_last() =~= calls);
    assert forall|u: Seq<int>| #![trigger sponge::followed(c, u)]
        at(s, u) == sponge::followed(c, u).state && sponge::followed(c, u).drawn
            == sponge::followed(calls, u).drawn.push(at(s, u)[slot]) && sponge::followed(
            calls,
            u,
        ).drawn.len() == n by {
        sponge::law_followed(calls, u, w);
        let e = sponge::followed(calls, u);
        let p = sponge::primed(e);
        permutation::lemma_permutation(sponge::loaded(e.state, e.input));
        assert(at(state(calls), u) =~= e.state);
        assert(at(input, u) =~= e.input);
        assert(at(s, u) =~= p.state);
        assert(p.output == p.state.take(p.output.len() as int));
        assert(p.output.last() == p.state[slot]);
    }
    lemma_slots_same(16, |u: Seq<int>| sponge::followed(c, u).state, |u: Seq<int>| at(s, u));
    let again = slots(16, |u: Seq<int>| at(s, u));
    assert forall|j: int| 0 <= j < 16 implies again[j] == s[j] by {
        assert(again[j] =~= s[j]);
    }
    assert(again =~= s);
    let got = drawn(c, n + 1);
    let want = drawn(calls, n).push(s[slot]);
    assert forall|j: int| 0 <= j < n + 1 implies got[j] == want[j] by {
        assert forall|u: Seq<int>| #[trigger] got[j](u) == want[j](u) by {
            assert(sponge::followed(c, u).drawn[j] == sponge::followed(calls, u).drawn.push(
                at(s, u)[slot],
            )[j]);
        }
        assert(got[j] =~= want[j]);
    }
    assert(got =~= want);
}

// ---------------------------------------------------------------------------
// Extension elements.
// ---------------------------------------------------------------------------

pub open spec fn times(x: Sym, y: Sym) -> Sym {
    sym(|u: Seq<int>| ext4::times(x.at(u), y.at(u)))
}

pub open spec fn plus(x: Sym, y: Sym) -> Sym {
    sym(|u: Seq<int>| ext4::plus(x.at(u), y.at(u)))
}

/// The same element whatever the data.
pub open spec fn fixed(q: Quad) -> Sym {
    Sym { a: constant(q.a), b: constant(q.b), c: constant(q.c), d: constant(q.d) }
}

pub open spec fn fixed_list(qs: Seq<Quad>) -> Seq<Sym> {
    Seq::new(qs.len(), |i: int| fixed(qs[i]))
}

pub open spec fn lifted(x: Val) -> Sym {
    Sym { a: x, b: constant(0), c: constant(0), d: constant(0) }
}

pub open spec fn sumcheck_step(claim: Sym, c0: Sym, c_inf: Sym, r: Sym) -> Sym {
    sym(|u: Seq<int>| model::sumcheck_step(claim.at(u), c0.at(u), c_inf.at(u), r.at(u)))
}

pub open spec fn multilinear(table: Seq<Sym>, point: Seq<Sym>) -> Sym {
    sym(|u: Seq<int>| model::multilinear(ats(table, u), ats(point, u)))
}

pub open spec fn weighted(base: Sym, chi: Sym, shift: nat, evals: Seq<Sym>) -> Sym {
    sym(|u: Seq<int>| model::weighted(base.at(u), chi.at(u), shift, ats(evals, u)))
}

pub open spec fn expanded(x: Sym, m: nat) -> Seq<Sym> {
    Seq::new(m, |i: int| sym(|u: Seq<int>| model::expanded(x.at(u), m)[i]))
}

pub open spec fn eq_at(z: Seq<Sym>, r: Seq<Sym>) -> Sym {
    sym(|u: Seq<int>| model::eq_at(ats(z, u), ats(r, u)))
}

/// `((e_{n-1} chi + e_{n-2}) chi + ..) chi + e_0`.
pub open spec fn nested(chi: Sym, evals: Seq<Sym>) -> Sym
    decreases evals.len(),
{
    if evals.len() <= 1 {
        evals[0]
    } else {
        plus(times(nested(chi, evals.drop_first()), chi), evals[0])
    }
}

/// The first `k` rounds of a sumcheck.
pub open spec fn sumcheck_claim(claim: Sym, polys: Seq<(Sym, Sym)>, rs: Seq<Sym>, k: nat) -> Sym
    decreases k,
{
    if k == 0 {
        claim
    } else {
        sumcheck_step(
            sumcheck_claim(claim, polys, rs, (k - 1) as nat),
            polys[k - 1].0,
            polys[k - 1].1,
            rs[k - 1],
        )
    }
}

/// `r (var - 1) + 1`.
pub open spec fn select_factor(var: Val, r: Sym) -> Sym {
    plus(times(r, lifted(base_minus(var, constant(1)))), fixed(ext4::one()))
}

pub open spec fn selected(acc: Sym, var: Val, point: Seq<Sym>) -> Sym
    decreases point.len(),
{
    if point.len() == 0 {
        acc
    } else {
        selected(
            times(acc, select_factor(var, point.last())),
            base_times(var, var),
            point.drop_last(),
        )
    }
}

/// The last `n` elements.
pub open spec fn suffix(point: Seq<Sym>, n: nat) -> Seq<Sym> {
    point.skip(point.len() - n)
}

pub proof fn lemma_plus_commutes(x: Sym, y: Sym)
    ensures
        plus(x, y) == plus(y, x),
{
    let (p, q) = (plus(x, y), plus(y, x));
    assert forall|u: Seq<int>| #[trigger] p.at(u) == q.at(u) by {
        ext4::law_plus_commutes(x.at(u), y.at(u));
    }
    assert forall|u: Seq<int>| #[trigger] (p.a)(u) == (q.a)(u) by {
        assert(p.at(u) == q.at(u));
    }
    assert forall|u: Seq<int>| #[trigger] (p.b)(u) == (q.b)(u) by {
        assert(p.at(u) == q.at(u));
    }
    assert forall|u: Seq<int>| #[trigger] (p.c)(u) == (q.c)(u) by {
        assert(p.at(u) == q.at(u));
    }
    assert forall|u: Seq<int>| #[trigger] (p.d)(u) == (q.d)(u) by {
        assert(p.at(u) == q.at(u));
    }
    assert(p.a =~= q.a && p.b =~= q.b && p.c =~= q.c && p.d =~= q.d);
}

/// The pairs' values on `u`.
pub open spec fn pair_ats(ps: Seq<(Sym, Sym)>, u: Seq<int>) -> Seq<(Quad, Quad)> {
    Seq::new(ps.len(), |i: int| (ps[i].0.at(u), ps[i].1.at(u)))
}

pub proof fn lemma_sumcheck_claim(
    claim: Sym,
    polys: Seq<(Sym, Sym)>,
    rs: Seq<Sym>,
    k: nat,
    u: Seq<int>,
)
    requires
        k <= polys.len(),
        k <= rs.len(),
    ensures
        sumcheck_claim(claim, polys, rs, k).at(u) == model::sumcheck_claim(
            claim.at(u),
            pair_ats(polys, u),
            ats(rs, u),
            k,
        ),
    decreases k,
{
    if k > 0 {
        lemma_sumcheck_claim(claim, polys, rs, (k - 1) as nat, u);
    }
}

pub proof fn lemma_nested(chi: Sym, evals: Seq<Sym>, u: Seq<int>)
    requires
        evals.len() > 0,
    ensures
        nested(chi, evals).at(u) == model::nested(chi.at(u), ats(evals, u)),
    decreases evals.len(),
{
    if evals.len() > 1 {
        lemma_nested(chi, evals.drop_first(), u);
        assert(ats(evals.drop_first(), u) =~= ats(evals, u).drop_first());
    }
}

pub proof fn lemma_selected(acc: Sym, var: Val, point: Seq<Sym>, u: Seq<int>)
    ensures
        selected(acc, var, point).at(u) == model::selected(acc.at(u), var(u), ats(point, u)),
    decreases point.len(),
{
    if point.len() > 0 {
        lemma_selected(
            times(acc, select_factor(var, point.last())),
            base_times(var, var),
            point.drop_last(),
            u,
        );
        assert(ats(point.drop_last(), u) =~= ats(point, u).drop_last());
        assert(ats(point, u).last() == point.last().at(u));
    }
}

// ---------------------------------------------------------------------------
// Extension elements on a stack.
// ---------------------------------------------------------------------------

/// A coefficient.
pub open spec fn coefficient(q: Sym, r: int) -> Val {
    if r == 0 {
        q.a
    } else if r == 1 {
        q.b
    } else if r == 2 {
        q.c
    } else {
        q.d
    }
}

/// Extension elements on the main stack.
#[verifier::opaque]
pub open spec fn spread(qs: Seq<Sym>) -> Seq<Val> {
    Seq::new(4 * qs.len(), |i: int| coefficient(qs[i / 4], i % 4))
}

/// Extension elements on the alternative stack.
#[verifier::opaque]
pub open spec fn alt_spread(qs: Seq<Sym>) -> Seq<Val> {
    Seq::new(4 * qs.len(), |i: int| coefficient(qs[i / 4], 3 - i % 4))
}

/// The extension element at slot `i`.
pub open spec fn quad_at(s: Seq<Val>, i: int) -> Sym {
    Sym { a: s[i], b: s[i + 1], c: s[i + 2], d: s[i + 3] }
}

/// The `n` extension elements from slot `i`.
#[verifier::opaque]
pub open spec fn elems(s: Seq<Val>, i: int, n: nat) -> Seq<Sym> {
    Seq::new(n, |k: int| quad_at(s, i + 4 * k))
}

/// The `n` extension elements from slot `i` of the alternative stack.
#[verifier::opaque]
pub open spec fn alt_elems(s: Seq<Val>, i: int, n: nat) -> Seq<Sym> {
    Seq::new(
        n,
        |k: int|
            Sym {
                a: s[i + 4 * k + 3],
                b: s[i + 4 * k + 2],
                c: s[i + 4 * k + 1],
                d: s[i + 4 * k],
            },
    )
}

/// How many slots they take.
pub broadcast proof fn lemma_spread_len(qs: Seq<Sym>)
    ensures
        #[trigger] spread(qs).len() == 4 * qs.len(),
{
    reveal(spread);
}

pub broadcast proof fn lemma_alt_spread_len(qs: Seq<Sym>)
    ensures
        #[trigger] alt_spread(qs).len() == 4 * qs.len(),
{
    reveal(alt_spread);
}

/// One slot of an extension element.
pub proof fn lemma_slot(qs: Seq<Sym>, k: int, r: int)
    requires
        0 <= k < qs.len(),
        0 <= r < 4,
    ensures
        spread(qs)[4 * k + r] == coefficient(qs[k], r),
        alt_spread(qs)[4 * k + r] == coefficient(qs[k], 3 - r),
{
    broadcast use {lemma_spread_len, lemma_alt_spread_len};

    reveal(spread);
    reveal(alt_spread);
    assert((4 * k + r) / 4 == k && (4 * k + r) % 4 == r);
}

/// Reading an extension element back.
pub proof fn lemma_read(base: Seq<Val>, qs: Seq<Sym>, k: int)
    requires
        0 <= k < qs.len(),
    ensures
        quad_at(base + spread(qs), base.len() + 4 * k) == qs[k],
{
    broadcast use {lemma_spread_len, lemma_alt_spread_len};

    let s = base + spread(qs);
    let n = base.len() as int;
    lemma_slot(qs, k, 0);
    lemma_slot(qs, k, 1);
    lemma_slot(qs, k, 2);
    lemma_slot(qs, k, 3);
    assert(s[n + 4 * k] == spread(qs)[4 * k]);
    assert(s[n + 4 * k + 1] == spread(qs)[4 * k + 1]);
    assert(s[n + 4 * k + 2] == spread(qs)[4 * k + 2]);
    assert(s[n + 4 * k + 3] == spread(qs)[4 * k + 3]);
}

/// Reading extension elements back.
pub proof fn lemma_spread(base: Seq<Val>, qs: Seq<Sym>)
    ensures
        elems(base + spread(qs), base.len() as int, qs.len()) == qs,
{
    broadcast use {lemma_spread_len, lemma_alt_spread_len};

    reveal(elems);
    let r = elems(base + spread(qs), base.len() as int, qs.len());
    assert forall|k: int| 0 <= k < qs.len() implies r[k] == qs[k] by {
        lemma_read(base, qs, k);
    }
    assert(r =~= qs);
}

/// Reading extension elements back from the alternative stack.
pub proof fn lemma_alt_spread(qs: Seq<Sym>)
    ensures
        alt_elems(alt_spread(qs), 0, qs.len()) == qs,
{
    broadcast use {lemma_spread_len, lemma_alt_spread_len};

    reveal(alt_elems);
    let r = alt_elems(alt_spread(qs), 0, qs.len());
    assert forall|k: int| 0 <= k < qs.len() implies r[k] == qs[k] by {
        lemma_slot(qs, k, 0);
        lemma_slot(qs, k, 1);
        lemma_slot(qs, k, 2);
        lemma_slot(qs, k, 3);
    }
    assert(r =~= qs);
}

/// One element more.
pub proof fn lemma_spread_push(qs: Seq<Sym>, q: Sym)
    ensures
        spread(qs.push(q)) == spread(qs) + spread(seq![q]),
        alt_spread(qs.push(q)) == alt_spread(qs) + alt_spread(seq![q]),
{
    broadcast use {lemma_spread_len, lemma_alt_spread_len};

    let all = qs.push(q);
    let n = 4 * qs.len();
    assert forall|i: int| 0 <= i < n + 4 implies #[trigger] spread(all)[i] == (spread(qs) + spread(
        seq![q],
    ))[i] && alt_spread(all)[i] == (alt_spread(qs) + alt_spread(seq![q]))[i] by {
        let (k, r) = (i / 4, i % 4);
        assert(i == 4 * k + r);
        lemma_slot(all, k, r);
        if i < n {
            lemma_slot(qs, k, r);
        } else {
            lemma_slot(seq![q], 0, r);
        }
    }
    assert(spread(all) =~= spread(qs) + spread(seq![q]));
    assert forall|i: int| 0 <= i < n + 4 implies #[trigger] alt_spread(all)[i] == (alt_spread(qs)
        + alt_spread(seq![q]))[i] by {
        assert(spread(all)[i] == (spread(qs) + spread(seq![q]))[i]);
    }
    assert(alt_spread(all) =~= alt_spread(qs) + alt_spread(seq![q]));
}

/// `b` starts with `a`.
pub open spec fn prefix(a: Seq<Val>, b: Seq<Val>) -> bool {
    &&& a.len() <= b.len()
    &&& forall|i: int| 0 <= i < a.len() ==> #[trigger] b[i] == a[i]
}

/// The extension elements at places of a list.
pub open spec fn picked(s: Seq<Val>, entries: Seq<u128>) -> Seq<Sym> {
    Seq::new(entries.len(), |i: int| quad_at(s, entries[i] as int))
}

pub open spec fn picked_pairs(s: Seq<Val>, entries: Seq<(u128, u128)>) -> Seq<(Sym, Sym)> {
    Seq::new(
        entries.len(),
        |i: int| (quad_at(s, entries[i].0 as int), quad_at(s, entries[i].1 as int)),
    )
}

/// The extension elements `vals` stand at `entries` of `s`.
pub open spec fn stand(s: Seq<Val>, entries: Seq<u128>, vals: Seq<Sym>) -> bool {
    &&& entries.len() == vals.len()
    &&& forall|i: int|
        0 <= i < entries.len() ==> (#[trigger] entries[i]) + 4 <= s.len() && quad_at(
            s,
            entries[i] as int,
        ) == vals[i]
}

/// Pairs of extension elements stand at pairs of entries.
pub open spec fn pairs_stand(s: Seq<Val>, entries: Seq<(u128, u128)>, vals: Seq<(Sym, Sym)>) -> bool {
    &&& entries.len() == vals.len()
    &&& forall|i: int|
        0 <= i < entries.len() ==> {
            &&& (#[trigger] entries[i]).0 + 4 <= s.len()
            &&& entries[i].1 + 4 <= s.len()
            &&& quad_at(s, entries[i].0 as int) == vals[i].0
            &&& quad_at(s, entries[i].1 as int) == vals[i].1
        }
}

pub proof fn lemma_quad_prefix(s: Seq<Val>, t: Seq<Val>, i: int)
    requires
        prefix(s, t),
        0 <= i,
        i + 4 <= s.len(),
    ensures
        quad_at(t, i) == quad_at(s, i),
{
    assert(t[i] == s[i] && t[i + 1] == s[i + 1] && t[i + 2] == s[i + 2] && t[i + 3] == s[i + 3]);
}

/// What stands in a log stands in a longer one.
pub proof fn lemma_stand(s: Seq<Val>, t: Seq<Val>, entries: Seq<u128>, vals: Seq<Sym>)
    requires
        prefix(s, t),
        stand(s, entries, vals),
    ensures
        stand(t, entries, vals),
{
    assert forall|i: int| 0 <= i < entries.len() implies (#[trigger] entries[i]) + 4 <= t.len()
        && quad_at(t, entries[i] as int) == vals[i] by {
        lemma_quad_prefix(s, t, entries[i] as int);
    }
}

pub proof fn lemma_pairs_stand(
    s: Seq<Val>,
    t: Seq<Val>,
    entries: Seq<(u128, u128)>,
    vals: Seq<(Sym, Sym)>,
)
    requires
        prefix(s, t),
        pairs_stand(s, entries, vals),
    ensures
        pairs_stand(t, entries, vals),
{
    assert forall|i: int| 0 <= i < entries.len() implies ({
        &&& (#[trigger] entries[i]).0 + 4 <= t.len()
        &&& entries[i].1 + 4 <= t.len()
        &&& quad_at(t, entries[i].0 as int) == vals[i].0
        &&& quad_at(t, entries[i].1 as int) == vals[i].1
    }) by {
        lemma_quad_prefix(s, t, entries[i].0 as int);
        lemma_quad_prefix(s, t, entries[i].1 as int);
    }
}

pub proof fn lemma_stand_push(
    s: Seq<Val>,
    t: Seq<Val>,
    entries: Seq<u128>,
    vals: Seq<Sym>,
    e: u128,
    q: Sym,
)
    requires
        prefix(s, t),
        stand(s, entries, vals),
        e + 4 <= t.len(),
        quad_at(t, e as int) == q,
    ensures
        stand(t, entries.push(e), vals.push(q)),
{
    lemma_stand(s, t, entries, vals);
    assert forall|i: int| 0 <= i < entries.len() + 1 implies (#[trigger] entries.push(e)[i]) + 4
        <= t.len() && quad_at(t, entries.push(e)[i] as int) == vals.push(q)[i] by {
        if i < entries.len() {
            assert(entries.push(e)[i] == entries[i]);
        }
    }
}

// ---------------------------------------------------------------------------
// Values of lists.
// ---------------------------------------------------------------------------

pub broadcast proof fn lemma_at_push(s: Seq<Val>, v: Val, u: Seq<int>)
    ensures
        #[trigger] at(s.push(v), u) == at(s, u).push(v(u)),
{
    assert(at(s.push(v), u) =~= at(s, u).push(v(u)));
}

pub broadcast proof fn lemma_at_add(s: Seq<Val>, t: Seq<Val>, u: Seq<int>)
    ensures
        #[trigger] at(s + t, u) == at(s, u) + at(t, u),
{
    assert(at(s + t, u) =~= at(s, u) + at(t, u));
}

pub broadcast proof fn lemma_at_none(u: Seq<int>)
    ensures
        #[trigger] at(Seq::<Val>::empty(), u) == Seq::<int>::empty(),
{
    assert(at(Seq::<Val>::empty(), u) =~= Seq::<int>::empty());
}

pub broadcast proof fn lemma_at_skip(s: Seq<Val>, n: int, u: Seq<int>)
    requires
        0 <= n <= s.len(),
    ensures
        #[trigger] at(s.skip(n), u) == at(s, u).skip(n),
{
    assert(at(s.skip(n), u) =~= at(s, u).skip(n));
}

pub broadcast group group_at {
    lemma_at_push,
    lemma_at_add,
    lemma_at_none,
    lemma_at_skip,
}

/// Extension elements on a stack have their values there.
pub proof fn lemma_at_spread(qs: Seq<Sym>, u: Seq<int>)
    ensures
        at(spread(qs), u) == script::spread(ats(qs, u)),
        at(alt_spread(qs), u) == script::alt_spread(ats(qs, u)),
{
    reveal(spread);
    reveal(alt_spread);
    reveal(script::spread);
    reveal(script::alt_spread);
    assert(at(spread(qs), u) =~= script::spread(ats(qs, u)));
    assert(at(alt_spread(qs), u) =~= script::alt_spread(ats(qs, u)));
}

/// Extension elements read from a stack are read from its values.
pub proof fn lemma_at_elems(s: Seq<Val>, i: int, n: nat, u: Seq<int>)
    requires
        0 <= i,
        i + 4 * n <= s.len(),
    ensures
        ats(elems(s, i, n), u) == script::elems(at(s, u), i, n),
        ats(alt_elems(s, i, n), u) == script::alt_elems(at(s, u), i, n),
{
    reveal(elems);
    reveal(alt_elems);
    reveal(script::elems);
    reveal(script::alt_elems);
    assert(ats(elems(s, i, n), u) =~= script::elems(at(s, u), i, n));
    assert(ats(alt_elems(s, i, n), u) =~= script::alt_elems(at(s, u), i, n));
}

// ---------------------------------------------------------------------------
// What operations do on all data.
// ---------------------------------------------------------------------------

/// On every data that meets `c` the operation makes `r` and `b` of `t` and `a`;
/// on the others its requirement fails.
pub open spec fn does(op: Op, t: Seq<Val>, a: Seq<Val>, c: Cond, r: Seq<Val>, b: Seq<Val>) -> bool {
    forall|u: Seq<int>| #[trigger]
        effect(op, at(t, u), at(a, u)) == (if c(u) {
            Some((at(r, u), at(b, u)))
        } else {
            None
        })
}

proof fn does_one(op: Op, t: Seq<Val>, a: Seq<Val>, x: Sym)
    requires
        forall|u: Seq<int>| #[trigger]
            effect(op, at(t, u), at(a, u)) == Some(
                (script::spread(seq![x.at(u)]), Seq::<int>::empty()),
            ),
    ensures
        does(op, t, a, always(), spread(seq![x]), none()),
{
    assert forall|u: Seq<int>| #[trigger]
        effect(op, at(t, u), at(a, u)) == (if always()(u) {
            Some((at(spread(seq![x]), u), at(none(), u)))
        } else {
            None
        }) by {
        lemma_at_spread(seq![x], u);
        lemma_at_none(u);
        assert(ats(seq![x], u) =~= seq![x.at(u)]);
    }
}

pub proof fn effect_push(v: u32)
    ensures
        does(Op::Push(v), none(), none(), always(), seq![constant(v as int)], none()),
{
    reveal(effect);
    assert forall|u: Seq<int>| #[trigger]
        effect(Op::Push(v), at(none(), u), at(none(), u)) == Some(
            (at(seq![constant(v as int)], u), at(none(), u)),
        ) by {
        lemma_at_none(u);
        assert(at(seq![constant(v as int)], u) =~= seq![v as int]);
    }
}

pub proof fn effect_pick(d: u128, t: Seq<Val>)
    requires
        t.len() == d + 1,
    ensures
        does(Op::Pick(d), t, none(), always(), t.push(t[0]), none()),
{
    broadcast use group_at;

    reveal(effect);
}

pub proof fn effect_roll(d: usize, t: Seq<Val>)
    requires
        t.len() == d + 1,
    ensures
        does(Op::Roll(d), t, none(), always(), t.skip(1).push(t[0]), none()),
{
    broadcast use group_at;

    reveal(effect);
}

pub proof fn effect_dup(x: Val)
    ensures
        does(Op::Dup, seq![x], none(), always(), seq![x, x], none()),
{
    broadcast use group_at;

    reveal(effect);
    assert forall|u: Seq<int>| #[trigger]
        effect(Op::Dup, at(seq![x], u), at(none(), u)) == Some((at(seq![x, x], u), at(none(), u))) by {
        assert(at(seq![x, x], u) =~= seq![x(u), x(u)]);
    }
}

pub proof fn effect_drops(t: Seq<Val>, n: usize)
    ensures
        does(Op::Drop, t, none(), always(), none(), none()),
        does(Op::TwoDrop, t, none(), always(), none(), none()),
        does(Op::ExtDrop(n), t, none(), always(), none(), none()),
{
    broadcast use group_at;

    reveal(effect);
}

pub proof fn effect_aside(x: Val)
    ensures
        does(Op::ToAlt, seq![x], none(), always(), none(), seq![x]),
        does(Op::FromAlt, none(), seq![x], always(), seq![x], none()),
{
    broadcast use group_at;

    reveal(effect);
    assert forall|u: Seq<int>| #[trigger]
        effect(Op::ToAlt, at(seq![x], u), at(none(), u)) == Some((at(none(), u), at(seq![x], u))) by {
        assert(at(seq![x], u) =~= seq![x(u)]);
    }
    assert forall|u: Seq<int>| #[trigger]
        effect(Op::FromAlt, at(none(), u), at(seq![x], u)) == Some((at(seq![x], u), at(none(), u))) by {
        assert(at(seq![x], u) =~= seq![x(u)]);
    }
}

/// Operations on the two base elements on top.
pub proof fn effect_bases(x: Val, y: Val, n: u32)
    ensures
        does(Op::AddIf(n), seq![x, y], none(), always(), seq![added_if(x, y, n as int)], none()),
        does(Op::EqualVerify, seq![x, y], none(), equal(x, y), none(), none()),
        does(Op::LessThan, seq![x, y], none(), always(), seq![less(x, y)], none()),
        does(Op::GreaterThanOrEqual, seq![x, y], none(), always(), seq![at_least(x, y)], none()),
        does(Op::FieldMul, seq![x, y], none(), always(), seq![base_times(x, y)], none()),
        does(Op::FieldSub, seq![x, y], none(), always(), seq![base_minus(x, y)], none()),
{
    broadcast use group_at;

    reveal(effect);
    let t = seq![x, y];
    assert forall|u: Seq<int>| true implies #[trigger] at(t, u) == seq![x(u), y(u)] by {
        assert(at(t, u) =~= seq![x(u), y(u)]);
    }
    assert forall|u: Seq<int>| #[trigger]
        effect(Op::AddIf(n), at(t, u), at(none(), u)) == Some(
            (at(seq![added_if(x, y, n as int)], u), at(none(), u)),
        ) by {
        assert(at(seq![added_if(x, y, n as int)], u) =~= seq![added_if(x, y, n as int)(u)]);
    }
    assert forall|u: Seq<int>| #[trigger]
        effect(Op::LessThan, at(t, u), at(none(), u)) == Some(
            (at(seq![less(x, y)], u), at(none(), u)),
        ) by {
        assert(at(seq![less(x, y)], u) =~= seq![less(x, y)(u)]);
    }
    assert forall|u: Seq<int>| #[trigger]
        effect(Op::GreaterThanOrEqual, at(t, u), at(none(), u)) == Some(
            (at(seq![at_least(x, y)], u), at(none(), u)),
        ) by {
        assert(at(seq![at_least(x, y)], u) =~= seq![at_least(x, y)(u)]);
    }
    assert forall|u: Seq<int>| #[trigger]
        effect(Op::FieldMul, at(t, u), at(none(), u)) == Some(
            (at(seq![base_times(x, y)], u), at(none(), u)),
        ) by {
        assert(at(seq![base_times(x, y)], u) =~= seq![base_times(x, y)(u)]);
    }
    assert forall|u: Seq<int>| #[trigger]
        effect(Op::FieldSub, at(t, u), at(none(), u)) == Some(
            (at(seq![base_minus(x, y)], u), at(none(), u)),
        ) by {
        assert(at(seq![base_minus(x, y)], u) =~= seq![base_minus(x, y)(u)]);
    }
}

/// Operations on the base element on top.
pub proof fn effect_base(x: Val, n: usize, gen: u32, bits: usize)
    ensures
        does(Op::Verify, seq![x], none(), nonzero(x), none(), none()),
        does(Op::LowBits(n), seq![x], none(), always(), none(), low_bits(x, n as nat)),
        does(
            (Op::PowConst { gen, bits }),
            seq![x],
            none(),
            always(),
            seq![power(gen as int, bits as nat, x)],
            none(),
        ),
{
    broadcast use group_at;

    reveal(effect);
    let t = seq![x];
    assert forall|u: Seq<int>| true implies #[trigger] at(t, u) == seq![x(u)] by {
        assert(at(t, u) =~= seq![x(u)]);
    }
    assert forall|u: Seq<int>| #[trigger]
        effect(Op::LowBits(n), at(t, u), at(none(), u)) == Some(
            (at(none(), u), at(low_bits(x, n as nat), u)),
        ) by {
        assert(at(low_bits(x, n as nat), u) =~= script::low_bits(x(u), n as nat));
    }
    let p = seq![power(gen as int, bits as nat, x)];
    assert forall|u: Seq<int>| #[trigger]
        effect((Op::PowConst { gen, bits }), at(t, u), at(none(), u)) == Some(
            (at(p, u), at(none(), u)),
        ) by {
        assert(at(p, u) =~= seq![p[0](u)]);
    }
}

/// Hashing a row.
pub proof fn effect_hash(n: usize, t: Seq<Val>)
    ensures
        does(Op::HashRow(n), t, none(), always(), row_digest(t), none()),
{
    broadcast use group_at;

    reveal(effect);
    assert forall|u: Seq<int>| #[trigger]
        effect(Op::HashRow(n), at(t, u), at(none(), u)) == Some(
            (at(row_digest(t), u), at(none(), u)),
        ) by {
        let row = at(t, u);
        permutation::law_digests(row, row, row);
        assert(at(row_digest(t), u) =~= permutation::row_digest(row));
    }
}

/// Absorbing.
pub proof fn effect_absorb(k: usize, state: Seq<Val>, inputs: Seq<Val>)
    requires
        state.len() == 16,
    ensures
        does(Op::Absorb(k), state + inputs, none(), always(), permuted(state, inputs), none()),
{
    broadcast use group_at;

    reveal(effect);
    assert forall|u: Seq<int>| #[trigger]
        effect(Op::Absorb(k), at(state + inputs, u), at(none(), u)) == Some(
            (at(permuted(state, inputs), u), at(none(), u)),
        ) by {
        let t = at(state + inputs, u);
        assert(t.take(16) =~= at(state, u));
        assert(t.skip(16) =~= at(inputs, u));
        permutation::lemma_permutation(sponge::loaded(at(state, u), at(inputs, u)));
        assert(at(permuted(state, inputs), u) =~= sponge::permuted(at(state, u), at(inputs, u)));
    }
}

/// Sampling.
pub proof fn effect_sample(slot: usize, t: Seq<Val>)
    requires
        slot < t.len(),
    ensures
        does(Op::Sample(slot), t, none(), always(), t.push(t[slot as int]), none()),
{
    broadcast use group_at;

    reveal(effect);
}

/// Operations on the extension elements on top.
pub proof fn effect_pair(t: Seq<Val>)
    requires
        t.len() == 8,
    ensures
        does(
            Op::ExtMul,
            t,
            none(),
            always(),
            spread(seq![times(quad_at(t, 0), quad_at(t, 4))]),
            none(),
        ),
        does(
            Op::ExtAdd,
            t,
            none(),
            always(),
            spread(seq![plus(quad_at(t, 0), quad_at(t, 4))]),
            none(),
        ),
{
    reveal(effect);
    does_one(Op::ExtMul, t, none(), times(quad_at(t, 0), quad_at(t, 4)));
    does_one(Op::ExtAdd, t, none(), plus(quad_at(t, 0), quad_at(t, 4)));
}

/// Moving an extension element to the alternative stack.
pub proof fn effect_to_alt(x: Sym)
    ensures
        does(Op::ExtToAlt, spread(seq![x]), none(), always(), none(), alt_spread(seq![x])),
{
    broadcast use group_at;

    reveal(effect);
    assert forall|u: Seq<int>| #[trigger]
        effect(Op::ExtToAlt, at(spread(seq![x]), u), at(none(), u)) == Some(
            (at(none(), u), at(alt_spread(seq![x]), u)),
        ) by {
        lemma_at_spread(seq![x], u);
        assert(ats(seq![x], u) =~= seq![x.at(u)]);
        script::lemma_read(Seq::empty(), seq![x.at(u)], 0);
        assert(Seq::<int>::empty() + script::spread(seq![x.at(u)]) =~= script::spread(
            seq![x.at(u)],
        ));
    }
}

/// Moving an extension element back.
pub proof fn effect_from_alt(x: Sym)
    ensures
        does(Op::ExtFromAlt, none(), alt_spread(seq![x]), always(), spread(seq![x]), none()),
{
    broadcast use group_at;

    reveal(effect);
    assert forall|u: Seq<int>| #[trigger]
        effect(Op::ExtFromAlt, at(none(), u), at(alt_spread(seq![x]), u)) == Some(
            (at(spread(seq![x]), u), at(none(), u)),
        ) by {
        lemma_at_spread(seq![x], u);
        assert(ats(seq![x], u) =~= seq![x.at(u)]);
        script::lemma_alt_spread(seq![x.at(u)]);
    }
}

/// A sumcheck round.
pub proof fn effect_sumcheck(t: Seq<Val>)
    requires
        t.len() == 16,
    ensures
        does(
            Op::SumcheckRound,
            t,
            none(),
            always(),
            spread(
                seq![
                    sumcheck_step(
                        quad_at(t, 0),
                        quad_at(t, 4),
                        quad_at(t, 8),
                        quad_at(t, 12),
                    ),
                ],
            ),
            none(),
        ),
{
    reveal(effect);
    let x = sumcheck_step(quad_at(t, 0), quad_at(t, 4), quad_at(t, 8), quad_at(t, 12));
    does_one(Op::SumcheckRound, t, none(), x);
}

/// A multilinear evaluation.
pub proof fn effect_eval(n: usize, t: Seq<Val>, a: Seq<Val>)
    requires
        t.len() == 4 * pow2(n as nat),
        a.len() == 4 * n,
    ensures
        does(
            Op::EvalMultilinear(n),
            t,
            a,
            always(),
            spread(
                seq![multilinear(elems(t, 0, pow2(n as nat)), alt_elems(a, 0, n as nat))],
            ),
            none(),
        ),
{
    reveal(effect);
    let x = multilinear(elems(t, 0, pow2(n as nat)), alt_elems(a, 0, n as nat));
    assert forall|u: Seq<int>| #[trigger]
        effect(Op::EvalMultilinear(n), at(t, u), at(a, u)) == Some(
            (script::spread(seq![x.at(u)]), Seq::<int>::empty()),
        ) by {
        lemma_at_elems(t, 0, pow2(n as nat), u);
        lemma_at_elems(a, 0, n as nat, u);
    }
    does_one(Op::EvalMultilinear(n), t, a, x);
}

/// Combining answers.
pub proof fn effect_combine(k: u128, t: Seq<Val>, a: Seq<Val>)
    requires
        t.len() == 8,
        a.len() == 4 * (k + 1),
    ensures
        does(
            Op::CombineAnswers(k),
            t,
            a,
            always(),
            spread(
                seq![
                    weighted(
                        quad_at(t, 0),
                        quad_at(t, 4),
                        1,
                        alt_elems(a, 0, (k + 1) as nat),
                    ),
                ],
            ),
            none(),
        ),
{
    reveal(effect);
    let x = weighted(quad_at(t, 0), quad_at(t, 4), 1, alt_elems(a, 0, (k + 1) as nat));
    assert forall|u: Seq<int>| #[trigger]
        effect(Op::CombineAnswers(k), at(t, u), at(a, u)) == Some(
            (script::spread(seq![x.at(u)]), Seq::<int>::empty()),
        ) by {
        lemma_at_elems(a, 0, (k + 1) as nat, u);
    }
    does_one(Op::CombineAnswers(k), t, a, x);
}

/// Expanding a univariate point.
pub proof fn effect_expand(m: usize, x: Sym)
    ensures
        does(
            Op::ExpandUnivariate(m),
            spread(seq![x]),
            none(),
            always(),
            none(),
            alt_spread(expanded(x, m as nat)),
        ),
{
    broadcast use group_at;

    reveal(effect);
    assert forall|u: Seq<int>| #[trigger]
        effect(Op::ExpandUnivariate(m), at(spread(seq![x]), u), at(none(), u)) == Some(
            (at(none(), u), at(alt_spread(expanded(x, m as nat)), u)),
        ) by {
        lemma_at_spread(seq![x], u);
        assert(ats(seq![x], u) =~= seq![x.at(u)]);
        script::lemma_read(Seq::empty(), seq![x.at(u)], 0);
        assert(Seq::<int>::empty() + script::spread(seq![x.at(u)]) =~= script::spread(
            seq![x.at(u)],
        ));
        lemma_at_spread(expanded(x, m as nat), u);
        assert(ats(expanded(x, m as nat), u) =~= model::expanded(x.at(u), m as nat));
    }
}

/// An equality weight.
pub proof fn effect_eq(n: usize, under: usize, t: Seq<Val>, a: Seq<Val>)
    requires
        t.len() == 4 * (n + under),
        a.len() == 4 * n,
    ensures
        does(
            (Op::EqEvalAt { n, under }),
            t,
            a,
            always(),
            t + spread(seq![eq_at(alt_elems(a, 0, n as nat), elems(t, 0, n as nat))]),
            none(),
        ),
{
    broadcast use group_at;

    reveal(effect);
    let x = eq_at(alt_elems(a, 0, n as nat), elems(t, 0, n as nat));
    assert forall|u: Seq<int>| #[trigger]
        effect((Op::EqEvalAt { n, under }), at(t, u), at(a, u)) == Some(
            (at(t + spread(seq![x]), u), at(none(), u)),
        ) by {
        lemma_at_elems(t, 0, n as nat, u);
        lemma_at_elems(a, 0, n as nat, u);
        lemma_at_spread(seq![x], u);
        assert(ats(seq![x], u) =~= seq![x.at(u)]);
    }
}

} // verus!

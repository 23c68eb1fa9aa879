//! Honest proofs of true claims over `GF(2^128)`: whatever is drawn, and however
//! many rounds there are, the verifier's arithmetic accepts them.
//!
//! The committed polynomial is a function `f` of points. Here a point's
//! coordinates stand in the order in which the sumchecks bind them, which is the
//! reverse of the order in which the claims write them.
use super::field;
use super::field::Elt;
use super::hash;
use super::protocol;
use super::protocol::{Draws, ProofM, SumcheckM};
use super::pruned::Blake3Tree;
use super::reference;
use super::reference::{Challenges, Config, Data};
use crate::merkle;
use crate::multilinear;
use crate::multilinear::{Algebra, Term};
use vstd::arithmetic::power2::{lemma_pow2_unfold, pow2};
use vstd::prelude::*;

verus! {

/// The 128-bit level as a ring.
pub struct Binary;

impl Algebra for Binary {
    type E = Elt;

    open spec fn has(x: Elt) -> bool {
        x.len() == 128
    }

    open spec fn zero() -> Elt {
        field::zero128()
    }

    open spec fn one() -> Elt {
        field::one128()
    }

    open spec fn plus(x: Elt, y: Elt) -> Elt {
        field::plus(x, y)
    }

    open spec fn minus(x: Elt, y: Elt) -> Elt {
        field::plus(x, y)
    }

    open spec fn times(x: Elt, y: Elt) -> Elt {
        field::times(x, y)
    }

    proof fn closed(x: Elt, y: Elt) {
        field::lemma_level_128();
        field::lemma_times_len(x, y);
    }

    proof fn constants() {
    }

    proof fn sums(x: Elt, y: Elt, z: Elt) {
        field::law_plus_comm(x, y);
        field::law_plus_assoc(x, y, z);
        field::law_plus_assoc(x, y, y);
        field::law_plus_self(x);
        field::law_plus_self(y);
    }

    proof fn products(x: Elt, y: Elt, z: Elt) {
        field::lemma_level_128();
        field::law_times_comm(x, y);
        field::law_times_assoc(x, y, z);
        field::law_times_one(x);
        field::law_distribute_right(x, y, z);
    }
}

/// A polynomial as a function of points.
pub type Poly = spec_fn(Seq<Elt>) -> Elt;

/// A sumcheck's messages.
pub open spec fn messages(rounds: Seq<SumcheckM>) -> Seq<(Elt, Elt)> {
    Seq::new(rounds.len(), |k: int| (rounds[k].c0, rounds[k].c_inf))
}

/// Weights at `points`, the powers of `chi` from `shift` on as coefficients.
pub open spec fn batch(chi: Elt, shift: nat, powers: bool, points: Seq<Seq<Elt>>) -> Seq<Term<Elt>> {
    Seq::new(
        points.len(),
        |k: int|
            Term {
                coefficient: field::power(chi, (shift + k) as nat),
                powers,
                at: protocol::reversed(points[k]),
            },
    )
}

/// The point at which evaluation `j` of claim `i` is claimed: the given one, or
/// the column's selector followed by the row point.
pub open spec fn opened_at(cfg: Config, draws: Draws, given: Seq<Seq<Elt>>, i: int, j: int) -> Seq<
    Elt,
> {
    if cfg.given_points {
        given[i]
    } else {
        let shape = cfg.claims@[i];
        let n = shape.selectors@[j]@.len();
        let m = shape.row_vars as nat;
        Seq::new(
            n + m,
            |k: int|
                if k < n {
                    shape.selectors@[j]@[k]@
                } else {
                    field::power(draws.opening_points[i], pow2((m - 1 - (k - n)) as nat))
                },
        )
    }
}

/// The evaluations of claim `i`.
pub open spec fn evaluations(cfg: Config, i: int) -> nat {
    if cfg.given_points {
        1
    } else {
        cfg.claims@[i].selectors@.len()
    }
}

/// The points of the first `n` claims, claim by claim.
pub open spec fn opened_points(cfg: Config, draws: Draws, given: Seq<Seq<Elt>>, n: nat) -> Seq<
    Seq<Elt>,
>
    decreases n,
{
    if n == 0 {
        Seq::empty()
    } else {
        opened_points(cfg, draws, given, (n - 1) as nat) + Seq::new(
            evaluations(cfg, n - 1),
            |j: int| opened_at(cfg, draws, given, n - 1, j),
        )
    }
}

/// The point of an out-of-domain sample: the powers `y^(2^(m-1)), .., y^2, y`.
pub open spec fn sample_point(y: Elt, m: nat) -> Seq<Elt> {
    Seq::new(m, |i: int| field::power(y, pow2((m - 1 - i) as nat)))
}

pub open spec fn sample_points(ys: Seq<Elt>, m: nat) -> Seq<Seq<Elt>> {
    Seq::new(ys.len(), |k: int| sample_point(ys[k], m))
}

/// The commitment's weights: the claims', then the out-of-domain samples'.
pub open spec fn initial_terms(cfg: Config, draws: Draws, given: Seq<Seq<Elt>>) -> Seq<Term<Elt>> {
    batch(
        draws.alpha,
        0,
        false,
        opened_points(cfg, draws, given, cfg.claims@.len()) + sample_points(
            draws.initial_ood_points,
            cfg.num_variables as nat,
        ),
    )
}

/// Round `i`'s weights, under that round's own challenge: the out-of-domain
/// samples', then the queries'.
pub open spec fn round_terms(cfg: Config, draws: Draws, i: int) -> Seq<Term<Elt>> {
    let rch = draws.rounds[i];
    let m = cfg.rounds@[i].num_variables as nat;
    batch(rch.combination, 1, false, sample_points(rch.ood_points, m)) + batch(
        rch.combination,
        1 + rch.ood_points.len(),
        true,
        protocol::query_points(m, rch.queries),
    )
}

/// The batched weight of the commitment and of the first `n` rounds.
pub open spec fn batched(cfg: Config, draws: Draws, given: Seq<Seq<Elt>>, n: nat, p: Seq<Elt>) -> Elt
    decreases n,
{
    if n == 0 {
        multilinear::weighed::<Binary>(
            field::zero128(),
            initial_terms(cfg, draws, given),
            p,
        )
    } else {
        multilinear::weighed::<Binary>(
            batched(cfg, draws, given, (n - 1) as nat, p),
            round_terms(cfg, draws, n - 1),
            p,
        )
    }
}

pub open spec fn batched_poly(cfg: Config, draws: Draws, given: Seq<Seq<Elt>>, n: nat) -> Poly {
    |p: Seq<Elt>| batched(cfg, draws, given, n, p)
}

/// What is bound before the commitment that round `i` opens.
pub open spec fn bound_at_commitment(draws: Draws, i: nat) -> Seq<Elt> {
    if i == 0 {
        Seq::empty()
    } else {
        protocol::randomness_after(draws, (i - 1) as nat)
    }
}

/// The rows opened in round `i`, or at the end, are the committed codeword's: row
/// entry `c` is the polynomial with the coefficients of `f` at vertex `c` of the
/// variables that the row folds, at the query's point.
pub open spec fn true_row(f: Poly, draws: Draws, m: nat, i: nat, row: Seq<Elt>, query: nat) -> bool {
    let k = protocol::folding_before(draws, i).len();
    &&& row.len() == pow2(k)
    &&& forall|c: nat|
        c < pow2(k) ==> row[c as int] == multilinear::coefficients_at::<Binary>(
            f,
            bound_at_commitment(draws, i) + #[trigger] multilinear::low_first::<Binary>(c, k),
            protocol::reversed(protocol::query_point(m, query)),
        )
}

pub open spec fn true_rows(
    f: Poly,
    draws: Draws,
    m: nat,
    i: nat,
    rows: Seq<Seq<Elt>>,
    queries: Seq<nat>,
) -> bool {
    &&& rows.len() == queries.len()
    &&& forall|q: int|
        0 <= q < rows.len() ==> true_row(f, draws, m, i, #[trigger] rows[q], queries[q])
}

/// The answers are `f`'s values at the out-of-domain samples, `s` bound.
pub open spec fn true_answers(f: Poly, s: Seq<Elt>, answers: Seq<Elt>, ys: Seq<Elt>, m: nat) -> bool {
    &&& answers.len() == ys.len()
    &&& forall|k: int|
        0 <= k < answers.len() ==> #[trigger] answers[k] == f(
            s + protocol::reversed(sample_point(ys[k], m)),
        )
}

/// Round `i` is honest.
pub open spec fn true_round(
    f: Poly,
    cfg: Config,
    p: ProofM,
    draws: Draws,
    given: Seq<Seq<Elt>>,
    i: nat,
) -> bool {
    let rd = p.rounds[i as int];
    let rch = draws.rounds[i as int];
    let m = cfg.rounds@[i as int].num_variables as nat;
    let s = protocol::randomness_after(draws, i);
    &&& s.len() + m == cfg.num_variables
    &&& true_answers(f, s, rd.ood_answers, rch.ood_points, m)
    &&& true_rows(f, draws, m, i, rd.rows, rch.queries)
    &&& rd.sumcheck.len() == rch.folding.len()
    &&& multilinear::all_truthful::<Binary>(
        f,
        batched_poly(cfg, draws, given, i + 1),
        s,
        cfg.num_variables as nat,
        messages(rd.sumcheck),
        rch.folding,
    )
}

/// The claims are true, and so is the opening of the proof.
pub open spec fn true_start(
    f: Poly,
    cfg: Config,
    p: ProofM,
    draws: Draws,
    given: Seq<Seq<Elt>>,
) -> bool {
    let n = cfg.num_variables as nat;
    &&& multilinear::polynomial::<Binary>(f, n)
    &&& p.openings.len() == cfg.claims@.len()
    &&& forall|i: int|
        0 <= i < p.openings.len() ==> (#[trigger] p.openings[i]).len() == evaluations(cfg, i)
    &&& forall|i: int, j: int|
        0 <= i < p.openings.len() && 0 <= j < evaluations(cfg, i)
            ==> #[trigger] p.openings[i][j] == f(
            protocol::reversed(opened_at(cfg, draws, given, i, j)),
        )
    &&& true_answers(f, Seq::empty(), p.initial_ood_answers, draws.initial_ood_points, n)
    &&& p.initial_sumcheck.len() == draws.initial_folding.len()
    &&& multilinear::all_truthful::<Binary>(
        f,
        batched_poly(cfg, draws, given, 0),
        Seq::empty(),
        n,
        messages(p.initial_sumcheck),
        draws.initial_folding,
    )
}

/// The end of the proof is honest: the final polynomial holds `f`'s values at the
/// vertices of what is left.
pub open spec fn true_end(
    f: Poly,
    cfg: Config,
    p: ProofM,
    draws: Draws,
    given: Seq<Seq<Elt>>,
) -> bool {
    let last = draws.rounds.len();
    let s = protocol::randomness_after(draws, last);
    let k = draws.final_folding.len();
    &&& s.len() + k == cfg.num_variables
    &&& p.final_poly.len() == pow2(k)
    &&& forall|c: nat|
        c < pow2(k) ==> p.final_poly[c as int] == f(
            s + #[trigger] multilinear::low_first::<Binary>(c, k),
        )
    &&& true_rows(f, draws, k, last, p.final_rows, draws.final_queries)
    &&& p.final_sumcheck.len() == k
    &&& multilinear::all_truthful::<Binary>(
        f,
        batched_poly(cfg, draws, given, last),
        s,
        cfg.num_variables as nat,
        messages(p.final_sumcheck),
        draws.final_folding,
    )
}

/// The draws are elements.
pub open spec fn drawn(draws: Draws) -> bool {
    &&& multilinear::point::<Binary>(draws.initial_ood_points)
    &&& multilinear::point::<Binary>(draws.opening_points)
    &&& draws.alpha.len() == 128
    &&& multilinear::point::<Binary>(draws.initial_folding)
    &&& forall|i: int|
        0 <= i < draws.rounds.len() ==> {
            &&& multilinear::point::<Binary>((#[trigger] draws.rounds[i]).ood_points)
            &&& draws.rounds[i].combination.len() == 128
            &&& multilinear::point::<Binary>(draws.rounds[i].folding)
        }
    &&& multilinear::point::<Binary>(draws.final_folding)
}

/// The claims' points have the committed polynomial's variables.
pub open spec fn pointed(cfg: Config, draws: Draws, given: Seq<Seq<Elt>>) -> bool {
    &&& cfg.given_points || draws.opening_points.len() >= cfg.claims@.len()
    &&& forall|i: int, j: int|
        0 <= i < cfg.claims@.len() && 0 <= j < evaluations(cfg, i) ==> {
            &&& (#[trigger] opened_at(cfg, draws, given, i, j)).len() == cfg.num_variables
            &&& multilinear::point::<Binary>(opened_at(cfg, draws, given, i, j))
        }
}

/// An honest proof of true claims on `f`, under the draws.
pub open spec fn honest(
    f: Poly,
    cfg: Config,
    p: ProofM,
    draws: Draws,
    given: Seq<Seq<Elt>>,
) -> bool {
    &&& drawn(draws)
    &&& pointed(cfg, draws, given)
    &&& cfg.rounds@.len() == draws.rounds.len()
    &&& p.rounds.len() == draws.rounds.len()
    &&& true_start(f, cfg, p, draws, given)
    &&& forall|i: nat| i < draws.rounds.len() ==> #[trigger] true_round(f, cfg, p, draws, given, i)
    &&& true_end(f, cfg, p, draws, given)
}

// ---------------------------------------------------------------------------
// Arithmetic.
// ---------------------------------------------------------------------------

pub proof fn lemma_power_len(x: Elt, e: nat)
    requires
        x.len() == 128,
    ensures
        field::power(x, e).len() == 128,
    decreases e,
{
    field::lemma_level_128();
    if e > 0 {
        lemma_power_len(x, (e - 1) as nat);
        field::lemma_times_len(field::power(x, (e - 1) as nat), x);
    }
}

proof fn lemma_power_adds(x: Elt, a: nat, b: nat)
    requires
        x.len() == 128,
    ensures
        field::power(x, a + b) == field::times(field::power(x, a), field::power(x, b)),
    decreases b,
{
    field::lemma_level_128();
    lemma_power_len(x, a);
    lemma_power_len(x, b);
    if b == 0 {
        field::law_times_one(field::power(x, a));
    } else {
        lemma_power_adds(x, a, (b - 1) as nat);
        lemma_power_len(x, (b - 1) as nat);
        field::law_times_assoc(field::power(x, a), field::power(x, (b - 1) as nat), x);
    }
}

/// Squaring `k` times is raising to `2^k`.
pub proof fn law_squared(y: Elt, k: nat)
    requires
        y.len() == 128,
    ensures
        protocol::squared(y, k) == field::power(y, pow2(k)),
    decreases k,
{
    vstd::arithmetic::power2::lemma2_to64();
    field::lemma_level_128();
    if k == 0 {
        reveal_with_fuel(field::power, 2);
        field::law_times_one(y);
    } else {
        law_squared(y, (k - 1) as nat);
        lemma_pow2_unfold(k);
        lemma_power_adds(y, pow2((k - 1) as nat), pow2((k - 1) as nat));
    }
}

proof fn lemma_expanded(y: Elt, m: nat)
    requires
        y.len() == 128,
    ensures
        protocol::expand_univariate(y, m) == sample_point(y, m),
        multilinear::point::<Binary>(sample_point(y, m)),
        sample_point(y, m).len() == m,
{
    assert forall|i: int| 0 <= i < m implies protocol::expand_univariate(y, m)[i] == sample_point(
        y,
        m,
    )[i] && sample_point(y, m)[i].len() == 128 by {
        law_squared(y, (m - 1 - i) as nat);
        lemma_power_len(y, pow2((m - 1 - i) as nat));
    }
    assert(protocol::expand_univariate(y, m) =~= sample_point(y, m));
}

proof fn lemma_reversed(p: Seq<Elt>)
    ensures
        protocol::reversed(protocol::reversed(p)) == p,
        protocol::reversed(p).len() == p.len(),
        multilinear::point::<Binary>(p) ==> multilinear::point::<Binary>(protocol::reversed(p)),
        p.len() > 0 ==> protocol::reversed(p)[0] == p.last(),
        p.len() > 0 ==> protocol::reversed(p).skip(1) == protocol::reversed(p.drop_last()),
{
    let r = protocol::reversed(p);
    assert(protocol::reversed(r) =~= p);
    if p.len() > 0 {
        assert(r.skip(1) =~= protocol::reversed(p.drop_last()));
    }
    if multilinear::point::<Binary>(p) {
        assert forall|i: int| 0 <= i < r.len() implies Binary::has(#[trigger] r[i]) by {
            assert(Binary::has(p[p.len() - 1 - i]));
        }
    }
}

proof fn lemma_factors(z: Elt, r: Elt)
    requires
        z.len() == 128,
        r.len() == 128,
    ensures
        multilinear::factor::<Binary>(false, z, r) == field::plus(
            field::plus(z, r),
            field::one128(),
        ),
        multilinear::factor::<Binary>(true, z, r) == field::plus(
            field::times(r, field::plus(z, field::one128())),
            field::one128(),
        ),
{
    field::lemma_level_128();
    let one = field::one128();
    let u = field::plus(one, z);
    // z - (1 - z) is one in characteristic two.
    assert(field::plus(z, u) =~= one);
    field::law_times_one(r);
    assert(field::plus(u, r) =~= field::plus(field::plus(z, r), one));
    field::law_plus_comm(z, one);
    field::lemma_times_len(r, field::plus(z, one));
    field::law_plus_comm(one, field::times(r, field::plus(z, one)));
}

/// The two products of weights.
proof fn lemma_kernels(z: Seq<Elt>, r: Seq<Elt>)
    requires
        multilinear::point::<Binary>(z),
        multilinear::point::<Binary>(r),
        z.len() == r.len(),
    ensures
        multilinear::kernel::<Binary>(false, protocol::reversed(z), protocol::reversed(r))
            == protocol::eq_eval(z, r),
        multilinear::kernel::<Binary>(true, protocol::reversed(z), protocol::reversed(r))
            == protocol::select_point_weight(z, r),
        protocol::eq_eval(z, r).len() == 128,
        protocol::select_point_weight(z, r).len() == 128,
    decreases z.len(),
{
    field::lemma_level_128();
    if z.len() > 0 {
        let (zf, rf) = (z.drop_last(), r.drop_last());
        assert forall|i: int| 0 <= i < zf.len() implies Binary::has(#[trigger] zf[i]) by {
            assert(Binary::has(z[i]));
        }
        assert forall|i: int| 0 <= i < rf.len() implies Binary::has(#[trigger] rf[i]) by {
            assert(Binary::has(r[i]));
        }
        lemma_kernels(zf, rf);
        lemma_reversed(z);
        lemma_reversed(r);
        assert(Binary::has(z[z.len() - 1]) && Binary::has(r[r.len() - 1]));
        lemma_factors(z.last(), r.last());
        multilinear::lemma_factor::<Binary>(false, z.last(), r.last());
        multilinear::lemma_factor::<Binary>(true, z.last(), r.last());
        let (e, d) = (
            multilinear::factor::<Binary>(false, z.last(), r.last()),
            multilinear::factor::<Binary>(true, z.last(), r.last()),
        );
        field::law_times_comm(e, protocol::eq_eval(zf, rf));
        field::law_times_comm(d, protocol::select_point_weight(zf, rf));
        field::lemma_times_len(protocol::eq_eval(zf, rf), e);
        field::lemma_times_len(protocol::select_point_weight(zf, rf), d);
    }
}

/// A weight, read off the reversed randomness.
proof fn lemma_weight(z: Seq<Elt>, p: Seq<Elt>)
    requires
        multilinear::point::<Binary>(z),
        multilinear::point::<Binary>(p),
        z.len() <= p.len(),
    ensures
        multilinear::weight_at::<Binary>(false, protocol::reversed(z), p) == protocol::eq_eval(
            z,
            protocol::reversed(p).take(z.len() as int),
        ),
        multilinear::weight_at::<Binary>(true, protocol::reversed(z), p)
            == protocol::select_point_weight(z, protocol::reversed(p).take(z.len() as int)),
        protocol::eq_eval(z, protocol::reversed(p).take(z.len() as int)).len() == 128,
        protocol::select_point_weight(z, protocol::reversed(p).take(z.len() as int)).len() == 128,
{
    let r = protocol::reversed(p).take(z.len() as int);
    let tail = p.skip(p.len() - z.len());
    lemma_reversed(p);
    assert forall|i: int| 0 <= i < r.len() implies Binary::has(#[trigger] r[i]) by {
        assert(Binary::has(protocol::reversed(p)[i]));
    }
    assert(protocol::reversed(r) =~= tail);
    lemma_kernels(z, r);
}

/// Tables, read with the reversed folding randomness.
proof fn lemma_tables(table: Seq<Elt>, r: Seq<Elt>)
    ensures
        multilinear::table_low::<Binary>(table, r) == protocol::eval_multilinear(
            table,
            protocol::reversed(r),
        ),
        multilinear::table_coefficients::<Binary>(table, r) == protocol::eval_coefficients(
            table,
            protocol::reversed(r),
        ),
    decreases r.len(),
{
    if r.len() > 0 {
        let p = protocol::reversed(r);
        assert(p.last() == r[0]);
        assert(p.drop_last() =~= protocol::reversed(r.skip(1)));
        assert(multilinear::paired::<Binary>(table, r[0]) =~= protocol::bind(table, r[0]));
        lemma_tables(protocol::bind(table, r[0]), r.skip(1));
        let b = Seq::new(
            table.len() / 2,
            |j: int|
                Binary::plus(table[2 * j], Binary::times(table[2 * j + 1], r[0])),
        );
        assert(b =~= protocol::bind_coefficients(table, r[0]));
        lemma_tables(b, r.skip(1));
    }
}

pub proof fn lemma_sumcheck_claim(claim: Elt, rounds: Seq<SumcheckM>, folding: Seq<Elt>, k: nat)
    requires
        k <= rounds.len(),
    ensures
        multilinear::claim_through::<Binary>(claim, messages(rounds), folding, k)
            == protocol::sumcheck_claim(claim, rounds.take(k as int), folding),
    decreases k,
{
    if k > 0 {
        let j = (k - 1) as nat;
        lemma_sumcheck_claim(claim, rounds, folding, j);
        assert(rounds.take(k as int).drop_last() =~= rounds.take(j as int));
    }
}

/// What is combined into a claim is what the weights pick.
proof fn lemma_combined(
    claim: Elt,
    chi: Elt,
    shift: nat,
    evals: Seq<Elt>,
    terms: Seq<Term<Elt>>,
    f: Poly,
    s: Seq<Elt>,
)
    requires
        evals.len() == terms.len(),
        forall|k: int|
            0 <= k < terms.len() ==> {
                &&& (#[trigger] terms[k]).coefficient == field::power(chi, (shift + k) as nat)
                &&& evals[k] == multilinear::picked::<Binary>(terms[k].powers, f, s, terms[k].at)
            },
    ensures
        protocol::combine(claim, chi, shift, evals) == multilinear::gained::<Binary>(
            claim,
            terms,
            f,
            s,
        ),
    decreases terms.len(),
{
    if terms.len() > 0 {
        let front = terms.drop_last();
        assert forall|k: int| 0 <= k < front.len() implies {
            &&& (#[trigger] front[k]).coefficient == field::power(chi, (shift + k) as nat)
            &&& evals.drop_last()[k] == multilinear::picked::<Binary>(
                front[k].powers,
                f,
                s,
                front[k].at,
            )
        } by {
            assert(front[k] == terms[k]);
        }
        lemma_combined(claim, chi, shift, evals.drop_last(), front, f, s);
        let k = terms.len() - 1;
        assert(terms[k].coefficient == field::power(chi, (shift + k) as nat));
    }
}

/// The weights combined, on top of those before.
proof fn lemma_weighed(
    base: Elt,
    chi: Elt,
    shift: nat,
    ws: Seq<Elt>,
    terms: Seq<Term<Elt>>,
    p: Seq<Elt>,
)
    requires
        base.len() == 128,
        chi.len() == 128,
        ws.len() == terms.len(),
        forall|k: int|
            0 <= k < terms.len() ==> {
                &&& (#[trigger] terms[k]).coefficient == field::power(chi, (shift + k) as nat)
                &&& ws[k] == multilinear::weight_at::<Binary>(terms[k].powers, terms[k].at, p)
                &&& ws[k].len() == 128
            },
    ensures
        field::plus(base, protocol::combine(field::zero128(), chi, shift, ws))
            == multilinear::weighed::<Binary>(base, terms, p),
        protocol::combine(field::zero128(), chi, shift, ws).len() == 128,
    decreases terms.len(),
{
    field::lemma_level_128();
    if terms.len() == 0 {
        field::law_plus_self(base);
    } else {
        let front = terms.drop_last();
        assert forall|k: int| 0 <= k < front.len() implies {
            &&& (#[trigger] front[k]).coefficient == field::power(chi, (shift + k) as nat)
            &&& ws.drop_last()[k] == multilinear::weight_at::<Binary>(
                front[k].powers,
                front[k].at,
                p,
            )
            &&& ws.drop_last()[k].len() == 128
        } by {
            assert(front[k] == terms[k]);
        }
        lemma_weighed(base, chi, shift, ws.drop_last(), front, p);
        let k = terms.len() - 1;
        assert(terms[k].coefficient == field::power(chi, (shift + k) as nat));
        lemma_power_len(chi, (shift + k) as nat);
        let c = protocol::combine(field::zero128(), chi, shift, ws.drop_last());
        let x = field::times(field::power(chi, (shift + k) as nat), ws.last());
        field::lemma_times_len(field::power(chi, (shift + k) as nat), ws.last());
        field::law_plus_assoc(base, c, x);
    }
}

// ---------------------------------------------------------------------------
// The claims and the weights.
// ---------------------------------------------------------------------------

/// The claims' points and evaluations, claim by claim.
proof fn lemma_claims(
    f: Poly,
    cfg: Config,
    p: ProofM,
    draws: Draws,
    given: Seq<Seq<Elt>>,
    n: nat,
)
    requires
        drawn(draws),
        pointed(cfg, draws, given),
        true_start(f, cfg, p, draws, given),
        n <= cfg.claims@.len(),
    ensures
        protocol::claims_points(cfg, draws, given, n) == opened_points(cfg, draws, given, n),
        protocol::claims_evals(p, n).len() == opened_points(cfg, draws, given, n).len(),
        forall|k: int|
            0 <= k < opened_points(cfg, draws, given, n).len() ==> {
                let z = #[trigger] opened_points(cfg, draws, given, n)[k];
                &&& z.len() == cfg.num_variables
                &&& multilinear::point::<Binary>(z)
                &&& protocol::claims_evals(p, n)[k] == f(protocol::reversed(z))
            },
    decreases n,
{
    if n > 0 {
        let i = n - 1;
        lemma_claims(f, cfg, p, draws, given, (n - 1) as nat);
        let here = Seq::new(
            evaluations(cfg, i),
            |j: int| opened_at(cfg, draws, given, i, j),
        );
        let there = protocol::claim_points(cfg, draws, given, i);
        if !cfg.given_points {
            assert(Binary::has(draws.opening_points[i]));
            lemma_expanded(draws.opening_points[i], cfg.claims@[i].row_vars as nat);
        }
        assert forall|j: int| 0 <= j < here.len() implies here[j] == there[j] by {
            if !cfg.given_points {
                assert(here[j] =~= there[j]);
            }
        }
        assert(here =~= there);
        let before = opened_points(cfg, draws, given, (n - 1) as nat);
        let all = opened_points(cfg, draws, given, n);
        assert(p.openings[i].len() == evaluations(cfg, i));
        assert forall|k: int| 0 <= k < all.len() implies {
            let z = #[trigger] all[k];
            &&& z.len() == cfg.num_variables
            &&& multilinear::point::<Binary>(z)
            &&& protocol::claims_evals(p, n)[k] == f(protocol::reversed(z))
        } by {
            if k < before.len() {
                assert(all[k] == before[k]);
            } else {
                let j = k - before.len();
                assert(all[k] == opened_at(cfg, draws, given, i, j));
                assert(p.openings[i][j] == f(
                    protocol::reversed(opened_at(cfg, draws, given, i, j)),
                ));
            }
        }
    }
}

/// The commitment's weights are good.
proof fn lemma_initial_terms(
    f: Poly,
    cfg: Config,
    p: ProofM,
    draws: Draws,
    given: Seq<Seq<Elt>>,
)
    requires
        drawn(draws),
        pointed(cfg, draws, given),
        true_start(f, cfg, p, draws, given),
    ensures
        multilinear::terms_ok::<Binary>(
            initial_terms(cfg, draws, given),
            cfg.num_variables as nat,
        ),
        protocol::initial_claim(cfg, p, draws) == multilinear::gained::<Binary>(
            field::zero128(),
            initial_terms(cfg, draws, given),
            f,
            Seq::empty(),
        ),
        forall|r: Seq<Elt>|
            multilinear::point::<Binary>(r) && r.len() == cfg.num_variables
                ==> #[trigger] protocol::weights(
                cfg,
                p,
                draws,
                given,
                protocol::reversed(r),
                0,
            ) == batched(cfg, draws, given, 0, r),
{
    let n = cfg.num_variables as nat;
    let c = cfg.claims@.len();
    lemma_claims(f, cfg, p, draws, given, c);
    let opened = opened_points(cfg, draws, given, c);
    let samples = sample_points(draws.initial_ood_points, n);
    let points = opened + samples;
    let terms = initial_terms(cfg, draws, given);
    let evals = protocol::claims_evals(p, c) + p.initial_ood_answers;
    assert(protocol::claim_count(cfg, p) == c);
    let expanded = protocol::ood_expanded(draws.initial_ood_points, n);
    assert forall|k: int| 0 <= k < samples.len() implies samples[k] == expanded[k] && samples[k].len()
        == n && multilinear::point::<Binary>(samples[k]) by {
        assert(Binary::has(draws.initial_ood_points[k]));
        lemma_expanded(draws.initial_ood_points[k], n);
    }
    assert(samples =~= expanded);
    assert forall|k: int| 0 <= k < points.len() implies {
        &&& (#[trigger] points[k]).len() == n
        &&& multilinear::point::<Binary>(points[k])
        &&& evals[k] == f(protocol::reversed(points[k]))
    } by {
        if k < opened.len() {
            assert(points[k] == opened[k]);
        } else {
            let j = k - opened.len();
            assert(points[k] == samples[j]);
            assert(evals[k] == p.initial_ood_answers[j]);
            assert(Seq::<Elt>::empty() + protocol::reversed(samples[j]) =~= protocol::reversed(
                samples[j],
            ));
        }
    }
    assert forall|k: int| 0 <= k < terms.len() implies {
        &&& Binary::has((#[trigger] terms[k]).coefficient)
        &&& multilinear::point::<Binary>(terms[k].at)
        &&& terms[k].at.len() == n
    } by {
        lemma_power_len(draws.alpha, k as nat);
        assert(points[k].len() == n);
        lemma_reversed(points[k]);
    }
    assert forall|k: int| 0 <= k < terms.len() implies {
        &&& (#[trigger] terms[k]).coefficient == field::power(draws.alpha, (0 + k) as nat)
        &&& evals[k] == multilinear::picked::<Binary>(
            terms[k].powers,
            f,
            Seq::empty(),
            terms[k].at,
        )
    } by {
        assert(points[k].len() == n);
        assert(Seq::<Elt>::empty() + terms[k].at =~= terms[k].at);
    }
    lemma_combined(field::zero128(), draws.alpha, 0, evals, terms, f, Seq::empty());
    assert forall|r: Seq<Elt>|
        multilinear::point::<Binary>(r) && r.len() == n implies #[trigger] protocol::weights(
        cfg,
        p,
        draws,
        given,
        protocol::reversed(r),
        0,
    ) == batched(cfg, draws, given, 0, r) by {
        let con = protocol::initial_constraint(cfg, p, draws, given);
        assert(con.eq_points =~= points);
        let rev = protocol::reversed(r);
        let local = rev.take(n as int);
        let eq_w = Seq::new(points.len(), |k: int| protocol::eq_eval(points[k], local));
        let direct_w = Seq::new(
            con.direct_points.len(),
            |k: int| protocol::select_point_weight(con.direct_points[k], local),
        );
        assert(eq_w + direct_w =~= eq_w);
        assert forall|k: int| 0 <= k < terms.len() implies {
            &&& (#[trigger] terms[k]).coefficient == field::power(draws.alpha, (0 + k) as nat)
            &&& eq_w[k] == multilinear::weight_at::<Binary>(terms[k].powers, terms[k].at, r)
            &&& eq_w[k].len() == 128
        } by {
            assert(points[k].len() == n);
            lemma_weight(points[k], r);
        }
        lemma_weighed(field::zero128(), draws.alpha, 0, eq_w, terms, r);
    }
}

proof fn lemma_query_point(m: nat, index: nat)
    ensures
        multilinear::point::<Binary>(protocol::query_point(m, index)),
        protocol::query_point(m, index).len() == m,
{
    let x = protocol::domain_point(index);
    protocol::lemma_domain_len(index, 0);
    let z = protocol::query_point(m, index);
    assert forall|i: int| 0 <= i < m implies Binary::has(#[trigger] z[i]) by {
        lemma_subspace_len((m - 1 - i) as nat, x);
    }
}

proof fn lemma_subspace_len(j: nat, x: Elt)
    requires
        x.len() == 128,
    ensures
        protocol::subspace_polynomial(j, x).len() == 128,
    decreases j,
{
    field::lemma_level_128();
    if j > 0 {
        lemma_subspace_len((j - 1) as nat, x);
        let v = protocol::subspace_polynomial((j - 1) as nat, x);
        field::lemma_times_len(v, v);
    }
}

/// Round `i`'s weights are good.
proof fn lemma_round_terms(cfg: Config, draws: Draws, i: int)
    requires
        drawn(draws),
        0 <= i < draws.rounds.len(),
    ensures
        multilinear::terms_ok::<Binary>(
            round_terms(cfg, draws, i),
            cfg.rounds@[i].num_variables as nat,
        ),
        forall|k: int|
            0 <= k < round_terms(cfg, draws, i).len() ==> (#[trigger] round_terms(
                cfg,
                draws,
                i,
            )[k]).coefficient == field::power(draws.rounds[i].combination, (1 + k) as nat),
{
    let m = cfg.rounds@[i].num_variables as nat;
    let rch = draws.rounds[i];
    let terms = round_terms(cfg, draws, i);
    let ood = rch.ood_points.len();
    assert forall|k: int| 0 <= k < terms.len() implies {
        &&& Binary::has((#[trigger] terms[k]).coefficient)
        &&& multilinear::point::<Binary>(terms[k].at)
        &&& terms[k].at.len() == m
        &&& terms[k].coefficient == field::power(rch.combination, (1 + k) as nat)
    } by {
        lemma_power_len(rch.combination, (1 + k) as nat);
        if k < ood {
            assert(Binary::has(rch.ood_points[k]));
            lemma_expanded(rch.ood_points[k], m);
            lemma_reversed(sample_point(rch.ood_points[k], m));
        } else {
            let q = k - ood;
            lemma_query_point(m, rch.queries[q]);
            lemma_reversed(protocol::query_point(m, rch.queries[q]));
        }
    }
}

/// The weight of a round on top of those before.
proof fn lemma_round_weight(
    cfg: Config,
    p: ProofM,
    draws: Draws,
    given: Seq<Seq<Elt>>,
    i: nat,
    r: Seq<Elt>,
)
    requires
        drawn(draws),
        i < draws.rounds.len(),
        cfg.rounds@[i as int].num_variables <= r.len(),
        multilinear::point::<Binary>(r),
        protocol::weights(cfg, p, draws, given, protocol::reversed(r), i) == batched(
            cfg,
            draws,
            given,
            i,
            r,
        ),
        batched(cfg, draws, given, i, r).len() == 128,
    ensures
        protocol::weights(cfg, p, draws, given, protocol::reversed(r), i + 1) == batched(
            cfg,
            draws,
            given,
            i + 1,
            r,
        ),
{
    let m = cfg.rounds@[i as int].num_variables as nat;
    let rch = draws.rounds[i as int];
    let terms = round_terms(cfg, draws, i as int);
    let ood = rch.ood_points.len();
    lemma_round_terms(cfg, draws, i as int);
    let con = protocol::round_constraint(cfg, draws, i as int);
    let rev = protocol::reversed(r);
    let local = rev.take(m as int);
    let eq_w = Seq::new(con.eq_points.len(), |k: int| protocol::eq_eval(con.eq_points[k], local));
    let direct_w = Seq::new(
        con.direct_points.len(),
        |k: int| protocol::select_point_weight(con.direct_points[k], local),
    );
    let ws = eq_w + direct_w;
    assert forall|k: int| 0 <= k < terms.len() implies {
        &&& (#[trigger] terms[k]).coefficient == field::power(rch.combination, (1 + k) as nat)
        &&& ws[k] == multilinear::weight_at::<Binary>(terms[k].powers, terms[k].at, r)
        &&& ws[k].len() == 128
    } by {
        if k < ood {
            assert(Binary::has(rch.ood_points[k]));
            lemma_expanded(rch.ood_points[k], m);
            lemma_weight(sample_point(rch.ood_points[k], m), r);
        } else {
            let q = k - ood;
            lemma_query_point(m, rch.queries[q]);
            lemma_weight(protocol::query_point(m, rch.queries[q]), r);
        }
    }
    assert(draws.rounds[i as int].combination.len() == 128);
    lemma_weighed(
        batched(cfg, draws, given, i, r),
        rch.combination,
        1,
        ws,
        terms,
        r,
    );
}

proof fn lemma_randomness(draws: Draws, i: nat)
    requires
        drawn(draws),
        i <= draws.rounds.len(),
    ensures
        multilinear::point::<Binary>(protocol::randomness_after(draws, i)),
        multilinear::point::<Binary>(bound_at_commitment(draws, i)),
        multilinear::point::<Binary>(protocol::folding_before(draws, i)),
        protocol::randomness_after(draws, i) == bound_at_commitment(draws, i)
            + protocol::folding_before(draws, i),
    decreases i,
{
    if i == 0 {
        assert(Seq::<Elt>::empty() + draws.initial_folding =~= draws.initial_folding);
    } else {
        lemma_randomness(draws, (i - 1) as nat);
        assert(multilinear::point::<Binary>(draws.rounds[i - 1].folding));
        multilinear::lemma_point_join::<Binary>(
            protocol::randomness_after(draws, (i - 1) as nat),
            draws.rounds[i - 1].folding,
        );
    }
}

/// A true row folds to the folded codeword.
proof fn lemma_fold(f: Poly, draws: Draws, m: nat, i: nat, row: Seq<Elt>, query: nat)
    requires
        drawn(draws),
        i <= draws.rounds.len(),
        true_row(f, draws, m, i, row, query),
        multilinear::polynomial::<Binary>(f, protocol::randomness_after(draws, i).len() + m),
    ensures
        protocol::eval_multilinear(
            row,
            protocol::reversed(protocol::folding_before(draws, i)),
        ) == multilinear::coefficients_at::<Binary>(
            f,
            protocol::randomness_after(draws, i),
            protocol::reversed(protocol::query_point(m, query)),
        ),
{
    lemma_randomness(draws, i);
    lemma_query_point(m, query);
    let z = protocol::reversed(protocol::query_point(m, query));
    lemma_reversed(protocol::query_point(m, query));
    let (s, r) = (bound_at_commitment(draws, i), protocol::folding_before(draws, i));
    multilinear::lemma_coefficients_polynomial::<Binary>(f, z, s.len() + r.len());
    let h = |q: Seq<Elt>| multilinear::coefficients_at::<Binary>(f, q, z);
    assert forall|c: nat| c < pow2(r.len()) implies row[c as int] == h(
        s + #[trigger] multilinear::low_first::<Binary>(c, r.len()),
    ) by {}
    multilinear::lemma_table_low::<Binary>(h, row, s, r);
    lemma_tables(row, r);
}

// ---------------------------------------------------------------------------
// The laws.
// ---------------------------------------------------------------------------

/// The claim and the weight stay in step: of an honest proof, the claim after
/// every round is the sum over the hypercube of the committed polynomial, folded
/// so far, times the batched weight, whose powers in each round are those of that
/// round's own challenge. The batched weight is the verifier's.
pub proof fn law_claim_in_step(
    f: Poly,
    cfg: Config,
    p: ProofM,
    draws: Draws,
    given: Seq<Seq<Elt>>,
    i: nat,
)
    requires
        honest(f, cfg, p, draws, given),
        i <= draws.rounds.len(),
    ensures
        multilinear::polynomial::<Binary>(
            batched_poly(cfg, draws, given, i),
            cfg.num_variables as nat,
        ),
        protocol::claim_after(cfg, p, draws, i) == multilinear::cube_sum::<Binary>(
            multilinear::product::<Binary>(f, batched_poly(cfg, draws, given, i)),
            protocol::randomness_after(draws, i),
            (cfg.num_variables - protocol::randomness_after(draws, i).len()) as nat,
        ),
        forall|r: Seq<Elt>|
            multilinear::point::<Binary>(r) && r.len() == cfg.num_variables
                ==> #[trigger] protocol::weights(
                cfg,
                p,
                draws,
                given,
                protocol::reversed(r),
                i,
            ) == batched(cfg, draws, given, i, r),
    decreases i,
{
    let n = cfg.num_variables as nat;
    let w = batched_poly(cfg, draws, given, i);
    lemma_randomness(draws, i);
    lemma_bound_fits(f, cfg, p, draws, given, i);
    if i == 0 {
        lemma_initial_terms(f, cfg, p, draws, given);
        let none = Seq::<Elt>::empty();
        multilinear::lemma_no_weight::<Binary>(f, none, n);
        let zero = |q: Seq<Elt>| Binary::zero();
        multilinear::law_batch::<Binary>(
            f,
            zero,
            w,
            none,
            n,
            initial_terms(cfg, draws, given),
        );
        let rs = p.initial_sumcheck;
        multilinear::law_sumcheck::<Binary>(
            f,
            w,
            none,
            n,
            messages(rs),
            draws.initial_folding,
            rs.len(),
        );
        lemma_sumcheck_claim(
            protocol::initial_claim(cfg, p, draws),
            rs,
            draws.initial_folding,
            rs.len(),
        );
        assert(rs.take(rs.len() as int) =~= rs);
        assert(none + draws.initial_folding.take(rs.len() as int) =~= draws.initial_folding);
    } else {
        let j = (i - 1) as nat;
        law_claim_in_step(f, cfg, p, draws, given, j);
        assert(true_round(f, cfg, p, draws, given, j));
        lemma_randomness(draws, j);
        let s = protocol::randomness_after(draws, j);
        let u = batched_poly(cfg, draws, given, j);
        let terms = round_terms(cfg, draws, j as int);
        let rd = p.rounds[j as int];
        let rch = draws.rounds[j as int];
        let m = cfg.rounds@[j as int].num_variables as nat;
        lemma_round_terms(cfg, draws, j as int);
        multilinear::law_batch::<Binary>(f, u, w, s, n, terms);
        let before = protocol::claim_after(cfg, p, draws, j);
        let folded = protocol::folds(
            rd.rows,
            protocol::reversed(protocol::folding_before(draws, j)),
        );
        let evals = rd.ood_answers + folded;
        let ood = rch.ood_points.len();
        assert forall|k: int| 0 <= k < terms.len() implies {
            &&& (#[trigger] terms[k]).coefficient == field::power(rch.combination, (1 + k) as nat)
            &&& evals[k] == multilinear::picked::<Binary>(terms[k].powers, f, s, terms[k].at)
        } by {
            if k < ood {
                assert(evals[k] == rd.ood_answers[k]);
            } else {
                let q = k - ood;
                assert(evals[k] == folded[q]);
                assert(true_row(f, draws, m, j, rd.rows[q], rch.queries[q]));
                lemma_fold(f, draws, m, j, rd.rows[q], rch.queries[q]);
            }
        }
        lemma_combined(before, rch.combination, 1, evals, terms, f, s);
        protocol::lemma_combine_concat(before, rch.combination, 1, rd.ood_answers, folded);
        let rs = rd.sumcheck;
        multilinear::law_sumcheck::<Binary>(f, w, s, n, messages(rs), rch.folding, rs.len());
        let all = protocol::combine(before, rch.combination, 1, evals);
        lemma_sumcheck_claim(all, rs, rch.folding, rs.len());
        assert(rs.take(rs.len() as int) =~= rs);
        assert(rch.folding.take(rs.len() as int) =~= rch.folding);
        assert forall|r: Seq<Elt>|
            multilinear::point::<Binary>(r) && r.len() == n implies #[trigger] protocol::weights(
            cfg,
            p,
            draws,
            given,
            protocol::reversed(r),
            i,
        ) == batched(cfg, draws, given, i, r) by {
            assert(protocol::weights(cfg, p, draws, given, protocol::reversed(r), j) == batched(
                cfg,
                draws,
                given,
                j,
                r,
            ));
            assert(Binary::has(u(r)));
            lemma_round_weight(cfg, p, draws, given, j, r);
        }
    }
}

/// What is bound after round `i` leaves no fewer than no variables.
proof fn lemma_bound_fits(
    f: Poly,
    cfg: Config,
    p: ProofM,
    draws: Draws,
    given: Seq<Seq<Elt>>,
    i: nat,
)
    requires
        honest(f, cfg, p, draws, given),
        i <= draws.rounds.len(),
    ensures
        protocol::randomness_after(draws, i).len() <= cfg.num_variables,
{
    if i < draws.rounds.len() {
        assert(true_round(f, cfg, p, draws, given, i));
    }
}

/// An honest proof of true claims closes, for any number of rounds and whatever is
/// drawn, and its final queries agree with its final polynomial.
pub proof fn law_honest_proofs_close(
    f: Poly,
    cfg: Config,
    p: ProofM,
    draws: Draws,
    given: Seq<Seq<Elt>>,
)
    requires
        honest(f, cfg, p, draws, given),
    ensures
        protocol::closes(cfg, p, draws, given),
        forall|q: int|
            0 <= q < draws.final_queries.len() ==> #[trigger] protocol::final_query_ok(
                p,
                draws,
                q,
            ),
{
    let n = cfg.num_variables as nat;
    let last = draws.rounds.len();
    let s = protocol::randomness_after(draws, last);
    let r = draws.final_folding;
    let k = r.len();
    let w = batched_poly(cfg, draws, given, last);
    law_claim_in_step(f, cfg, p, draws, given, last);
    lemma_randomness(draws, last);
    let rs = p.final_sumcheck;
    multilinear::law_sumcheck::<Binary>(f, w, s, n, messages(rs), r, k);
    lemma_sumcheck_claim(protocol::claim_after(cfg, p, draws, last), rs, r, k);
    assert(rs.take(k as int) =~= rs);
    assert(r.take(k as int) =~= r);
    let all = s + r;
    multilinear::lemma_point_join::<Binary>(s, r);
    assert(protocol::weights(cfg, p, draws, given, protocol::reversed(all), last) == w(all));
    multilinear::lemma_table_low::<Binary>(f, p.final_poly, s, r);
    lemma_tables(p.final_poly, r);
    assert(Binary::has(f(all)) && Binary::has(w(all)));
    Binary::products(f(all), w(all), w(all));
    assert forall|q: int|
        0 <= q < draws.final_queries.len() implies #[trigger] protocol::final_query_ok(
        p,
        draws,
        q,
    ) by {
        let query = draws.final_queries[q];
        assert(true_row(f, draws, k, last, p.final_rows[q], query));
        lemma_fold(f, draws, k, last, p.final_rows[q], query);
        protocol::lemma_log2_pow2(k);
        let z = protocol::query_point(k, query);
        lemma_query_point(k, query);
        lemma_reversed(z);
        multilinear::lemma_table_coefficients::<Binary>(
            f,
            p.final_poly,
            s,
            protocol::reversed(z),
        );
        lemma_tables(p.final_poly, protocol::reversed(z));
    }
}

// ---------------------------------------------------------------------------
// The whole verifier.
// ---------------------------------------------------------------------------

/// The opening of round `i` is one of the tree over the leaf digests `leaf`, whose
/// nodes at the cap's height the cap holds.
pub open spec fn true_tree(
    cfg: Config,
    d: Data,
    ch: Challenges,
    i: nat,
    leaf: spec_fn(int) -> Seq<u8>,
) -> bool {
    let o = reference::opening_at(d, i);
    let queries = reference::queries_at(ch, i);
    let idx = merkle::ints(queries);
    let width = protocol::width_of(cfg, i);
    let cap = protocol::cap_before(d.messages(), i);
    let depth = protocol::path_depth(cap, width);
    &&& reference::whole_cap(cap)
    &&& protocol::cap_shaped(cap, width)
    &&& forall|k: int|
        0 <= k < cap.len() / 32 ==> #[trigger] protocol::cap_root(cap, k)
            == merkle::tree_node::<Blake3Tree>(leaf, depth, k)
    &&& o.rows@.len() == queries.len()
    &&& forall|q: int| 0 <= q < queries.len() ==> (#[trigger] queries[q]) < pow2(width)
    &&& forall|q: int|
        0 <= q < queries.len() ==> hash::digest(
            protocol::row_bytes(reference::elts((#[trigger] o.rows@[q])@)),
        ) == leaf(queries[q] as int)
    &&& merkle::true_boundaries::<Blake3Tree>(
        leaf,
        merkle::sorted_unique(idx),
        reference::digest_bytes(o.boundaries@),
        depth,
    )
}

/// Climbing along a path of byte digests is climbing the tree.
proof fn lemma_climb(i: nat, leaf: Seq<u8>, sibs: Seq<Seq<u8>>, level: nat)
    ensures
        protocol::climb(reference::blake3(), i, leaf, sibs, level) == merkle::climbed::<Blake3Tree>(
            i as int,
            leaf,
            sibs,
            level,
        ),
    decreases level,
{
    if level > 0 {
        lemma_climb(i, leaf, sibs, (level - 1) as nat);
    }
}

/// A pruned opening of the committed tree passes, whatever positions are queried
/// and however often, and whatever the cap's height.
pub proof fn law_true_openings_pass(
    cfg: Config,
    d: Data,
    ch: Challenges,
    i: nat,
    leaf: spec_fn(int) -> Seq<u8>,
)
    requires
        true_tree(cfg, d, ch, i, leaf),
        i <= d.rounds@.len(),
        ch.rounds@.len() == d.rounds@.len(),
    ensures
        reference::round_sound(cfg, d, ch, i),
{
    let o = reference::opening_at(d, i);
    let queries = reference::queries_at(ch, i);
    let idx = merkle::ints(queries);
    let width = protocol::width_of(cfg, i);
    let cap = protocol::cap_before(d.messages(), i);
    let depth = protocol::path_depth(cap, width);
    let bnd = reference::digest_bytes(o.boundaries@);
    let rows = reference::elts2(o.rows@);
    let leaves = reference::leaf_digests(rows);
    let draws = ch.draws();
    let auth = reference::authentications(cfg, d, ch);
    let height = protocol::log2(cap.len() / 32);
    vstd::arithmetic::power2::lemma2_to64();
    assert(protocol::queries_of(draws, i) =~= reference::nats(queries));
    assert(reference::round_well_formed(cfg, d, ch, i)) by {
        assert forall|q: int| 0 <= q < idx.len() implies (#[trigger] idx[q]) < pow2(width) by {
            assert(queries[q] < pow2(width));
        }
    }
    assert forall|q: int| 0 <= q < idx.len() implies #[trigger] leaves[q] == leaf(idx[q]) by {
        assert(hash::digest(protocol::row_bytes(reference::elts(o.rows@[q]@))) == leaf(
            queries[q] as int,
        ));
    }
    let paths = reference::opening_paths(o, cap, queries, width);
    assert(auth[i as int].rows == rows && auth[i as int].paths == paths);
    assert forall|q: int|
        0 <= q < protocol::queries_of(draws, i).len() implies #[trigger] protocol::query_authentic(
        reference::blake3(),
        rows,
        paths,
        cap,
        protocol::queries_of(draws, i),
        width,
        q,
    ) by {
        let sibs = paths[q];
        assert forall|l: int| 0 <= l < depth implies #[trigger] sibs[l]
            == merkle::tree_node::<Blake3Tree>(
            leaf,
            l as nat,
            merkle::sib(merkle::ancestor(idx[q], l as nat)),
        ) by {
            merkle::law_pruned_paths_are_true::<Blake3Tree>(
                leaf,
                idx,
                leaves,
                bnd,
                depth,
                q,
                l as nat,
            );
        }
        merkle::law_true_siblings_reach_the_root::<Blake3Tree>(leaf, idx[q], sibs, depth);
        assert(leaves[q] == leaf(idx[q]));
        lemma_climb(queries[q] as nat, leaves[q], sibs, depth);
        assert(queries[q] < pow2(width));
        assert(width == depth + height);
        merkle::lemma_ancestor_bound(idx[q], depth, height);
        let k = merkle::ancestor(idx[q], depth);
        assert(cap.len() / 32 == pow2(height));
        assert(protocol::cap_root(cap, k) == merkle::tree_node::<Blake3Tree>(leaf, depth, k));
    }
}

/// An honest proof of true claims, its work done and its openings those of the
/// committed trees, passes every check.
pub proof fn law_honest_proofs_are_accepted(
    f: Poly,
    cfg: Config,
    d: Data,
    ch: Challenges,
    given: Seq<Seq<Elt>>,
    trees: Seq<spec_fn(int) -> Seq<u8>>,
)
    requires
        honest(f, cfg, d.messages(), ch.draws(), given),
        ch.pow_ok,
        ch.rounds@.len() == d.rounds@.len(),
        forall|i: nat|
            i <= d.rounds@.len() ==> #[trigger] true_tree(cfg, d, ch, i, trees[i as int]),
    ensures
        reference::opened_before(cfg, d, ch, d.rounds@.len() + 1),
        protocol::accepts(
            reference::blake3(),
            cfg,
            d.messages(),
            reference::authentications(cfg, d, ch),
            ch.draws(),
            given,
        ),
{
    law_honest_proofs_close(f, cfg, d.messages(), ch.draws(), given);
    assert forall|i: nat| i <= d.rounds@.len() implies #[trigger] reference::round_sound(
        cfg,
        d,
        ch,
        i,
    ) by {
        assert(true_tree(cfg, d, ch, i, trees[i as int]));
        law_true_openings_pass(cfg, d, ch, i, trees[i as int]);
    }
    assert forall|i: nat| i <= d.messages().rounds.len() implies #[trigger] protocol::round_authentic(
        reference::blake3(),
        cfg,
        d.messages(),
        reference::authentications(cfg, d, ch),
        ch.draws(),
        i,
    ) by {
        assert(reference::round_sound(cfg, d, ch, i));
    }
}

} // verus!

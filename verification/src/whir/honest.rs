//! Honest proofs of true claims over KoalaBear: whatever is drawn, and however
//! many rounds there are, the verifier's arithmetic accepts them.
//!
//! The committed polynomial, all columns stacked, is a function `f` of points; the
//! sumchecks bind a point's coordinates in order.
use super::model;
use super::pruned::Poseidon2Tree;
use super::reference::{Draws, SumcheckRoundData};
use super::verify;
use super::verify::{VerifyConfig, VerifyData};
use crate::merkle;
use crate::multilinear;
use crate::multilinear::{Algebra, Term};
use crate::poseidon2::constants::P;
use crate::poseidon2::ext4;
use crate::poseidon2::ext4::Quad;
use crate::poseidon2::field;
use crate::poseidon2::reference as permutation;
use vstd::arithmetic::power2::{lemma_pow2_unfold, pow2};
use vstd::prelude::*;

verus! {

/// A difference and what was taken off.
proof fn lemma_back(a: int, b: int)
    requires
        field::canonical(a),
    ensures
        field::plus(field::minus(a, b), b) == a,
{
    let p = P as int;
    vstd::arithmetic::div_mod::lemma_add_mod_noop_right(b, a - b, p);
    vstd::arithmetic::div_mod::lemma_small_mod(a as nat, p as nat);
    assert(b + (a - b) == a);
    assert(field::minus(a, b) + b == b + (a - b) % p);
}

/// The quartic extension as a ring.
pub struct Quartic;

impl Algebra for Quartic {
    type E = Quad;

    open spec fn has(x: Quad) -> bool {
        ext4::canonical(x)
    }

    open spec fn zero() -> Quad {
        ext4::zero()
    }

    open spec fn one() -> Quad {
        ext4::one()
    }

    open spec fn plus(x: Quad, y: Quad) -> Quad {
        ext4::plus(x, y)
    }

    open spec fn minus(x: Quad, y: Quad) -> Quad {
        ext4::minus(x, y)
    }

    open spec fn times(x: Quad, y: Quad) -> Quad {
        ext4::times(x, y)
    }

    proof fn closed(x: Quad, y: Quad) {
        ext4::law_canonical(x, y);
    }

    proof fn constants() {
    }

    proof fn sums(x: Quad, y: Quad, z: Quad) {
        ext4::law_plus_commutes(x, y);
        ext4::law_plus_associates(x, y, z);
        ext4::law_plus_zero(x);
        lemma_back(x.a, y.a);
        lemma_back(x.b, y.b);
        lemma_back(x.c, y.c);
        lemma_back(x.d, y.d);
    }

    proof fn products(x: Quad, y: Quad, z: Quad) {
        ext4::law_times_commutes(x, y);
        ext4::law_times_associates(x, y, z);
        ext4::law_times_one(x);
        ext4::law_times_distributes(y, z, x);
    }
}

/// A polynomial as a function of points.
pub type Poly = spec_fn(Seq<Quad>) -> Quad;

/// Weights at `points`, the powers of `chi` from `shift` on as coefficients.
pub open spec fn batch(chi: Quad, shift: nat, powers: bool, points: Seq<Seq<Quad>>) -> Seq<
    Term<Quad>,
> {
    Seq::new(
        points.len(),
        |k: int|
            Term { coefficient: ext4::power(chi, (shift + k) as nat), powers, at: points[k] },
    )
}

/// The point of a sample: the powers `y^(2^(m-1)), .., y^2, y`.
pub open spec fn sample_point(y: Quad, m: nat) -> Seq<Quad> {
    Seq::new(m, |i: int| ext4::power(y, pow2((m - 1 - i) as nat)))
}

pub open spec fn sample_points(ys: Seq<Quad>, m: nat) -> Seq<Seq<Quad>> {
    Seq::new(ys.len(), |k: int| sample_point(ys[k], m))
}

/// The point of a queried element `x` of the domain: `x^(2^(m-1)), .., x^2, x`.
pub open spec fn domain_point(x: int, m: nat) -> Seq<Quad> {
    Seq::new(m, |i: int| ext4::lifted(field::power(x, pow2((m - 1 - i) as nat))))
}

/// The point of query position `q` in the domain generated by `g`.
pub open spec fn query_point(g: int, q: int, m: nat) -> Seq<Quad> {
    domain_point(field::power(g, q as nat), m)
}

/// The row point of a claim at `u`, followed by the selector of its column `j`.
pub open spec fn column_point(cfg: VerifyConfig, u: Quad, c: int, j: int) -> Seq<Quad> {
    sample_point(u, cfg.claims@[c].row_vars as nat) + ext4::quads(
        cfg.claims@[c].selectors@[j]@,
    )
}

/// The points of the first `k` claims, claim by claim.
pub open spec fn column_points(cfg: VerifyConfig, us: Seq<Quad>, k: nat) -> Seq<Seq<Quad>>
    decreases k,
{
    if k == 0 {
        Seq::empty()
    } else {
        column_points(cfg, us, (k - 1) as nat) + Seq::new(
            cfg.claims@[k - 1].selectors@.len(),
            |j: int| column_point(cfg, us[k - 1], k - 1, j),
        )
    }
}

/// The commitment's weights: the claims', then the out-of-domain samples'.
pub open spec fn initial_terms(cfg: VerifyConfig, ch: Draws) -> Seq<Term<Quad>> {
    batch(
        ch.alpha,
        0,
        false,
        column_points(cfg, ch.opening_points, cfg.claims@.len()) + sample_points(
            ch.initial_ood_points,
            cfg.num_variables as nat,
        ),
    )
}

/// The points queried in round `i`, or at the end.
pub open spec fn query_points(cfg: VerifyConfig, ch: Draws, i: nat, m: nat) -> Seq<Seq<Quad>> {
    let idx = verify::positions(cfg, ch, i);
    Seq::new(idx.len(), |q: int| query_point(verify::generator(cfg, i), idx[q], m))
}

/// Round `i`'s weights, under that round's own challenge: the out-of-domain
/// samples', then the queries'.
pub open spec fn round_terms(cfg: VerifyConfig, ch: Draws, i: nat) -> Seq<Term<Quad>> {
    let r = ch.rounds[i as int];
    let m = cfg.rounds@[i as int].num_variables as nat;
    batch(r.combination, 1, false, sample_points(r.ood_points, m)) + batch(
        r.combination,
        1 + r.ood_points.len(),
        true,
        query_points(cfg, ch, i, m),
    )
}

/// The batched weight of the commitment and of the first `n` rounds.
pub open spec fn batched(cfg: VerifyConfig, ch: Draws, n: nat, p: Seq<Quad>) -> Quad
    decreases n,
{
    if n == 0 {
        multilinear::weighed::<Quartic>(ext4::zero(), initial_terms(cfg, ch), p)
    } else {
        multilinear::weighed::<Quartic>(
            batched(cfg, ch, (n - 1) as nat, p),
            round_terms(cfg, ch, (n - 1) as nat),
            p,
        )
    }
}

pub open spec fn batched_poly(cfg: VerifyConfig, ch: Draws, n: nat) -> Poly {
    |p: Seq<Quad>| batched(cfg, ch, n, p)
}

/// What is bound before the commitment that round `i` opens.
pub open spec fn bound_at_commitment(ch: Draws, i: nat) -> Seq<Quad> {
    if i == 0 {
        Seq::empty()
    } else {
        verify::randomness_at(ch, (i - 1) as nat)
    }
}

/// A row is the committed codeword's: entry `c` is the polynomial with the
/// coefficients of `f` at vertex `c` of the variables that the row folds, at the
/// query's point.
pub open spec fn true_row(f: Poly, ch: Draws, i: nat, row: Seq<Quad>, z: Seq<Quad>) -> bool {
    let k = verify::folding_before(ch, i).len();
    &&& row.len() == pow2(k)
    &&& forall|c: nat|
        c < pow2(k) ==> row[c as int] == multilinear::coefficients_at::<Quartic>(
            f,
            bound_at_commitment(ch, i) + #[trigger] multilinear::high_first::<Quartic>(c, k),
            z,
        )
}

/// The rows opened in round `i`, or at the end, are the committed codeword's.
pub open spec fn true_rows(
    f: Poly,
    cfg: VerifyConfig,
    data: VerifyData,
    ch: Draws,
    i: nat,
    m: nat,
) -> bool {
    let o = verify::opening(cfg, data, i);
    let idx = verify::positions(cfg, ch, i);
    &&& o.rows@.len() == idx.len()
    &&& forall|q: int|
        0 <= q < idx.len() ==> true_row(
            f,
            ch,
            i,
            verify::row_elems(o.extension, (#[trigger] o.rows@[q])@),
            query_point(verify::generator(cfg, i), idx[q], m),
        )
}

/// The answers are `f`'s values at the out-of-domain samples, `s` bound.
pub open spec fn true_answers(
    f: Poly,
    s: Seq<Quad>,
    answers: Seq<[u32; 4]>,
    ys: Seq<Quad>,
    m: nat,
) -> bool {
    &&& answers.len() == ys.len()
    &&& forall|k: int|
        0 <= k < answers.len() ==> ext4::quad((#[trigger] answers[k])@) == f(
            s + sample_point(ys[k], m),
        )
}

/// A sumcheck from `s` on is honest.
pub open spec fn true_sumcheck(
    f: Poly,
    cfg: VerifyConfig,
    ch: Draws,
    n: nat,
    s: Seq<Quad>,
    rs: Seq<SumcheckRoundData>,
    folding: Seq<Quad>,
) -> bool {
    &&& rs.len() == folding.len()
    &&& multilinear::all_truthful::<Quartic>(
        f,
        batched_poly(cfg, ch, n),
        s,
        cfg.num_variables as nat,
        verify::polys(rs),
        folding,
    )
}

/// Round `i` is honest.
pub open spec fn true_round(
    f: Poly,
    cfg: VerifyConfig,
    data: VerifyData,
    ch: Draws,
    i: nat,
) -> bool {
    let rd = data.transcript.rounds@[i as int];
    let r = ch.rounds[i as int];
    let m = cfg.rounds@[i as int].num_variables as nat;
    let s = verify::randomness_at(ch, i);
    &&& s.len() + m == cfg.num_variables
    &&& true_answers(f, s, rd.ood_answers@, r.ood_points, m)
    &&& true_rows(f, cfg, data, ch, i, m)
    &&& true_sumcheck(f, cfg, ch, i + 1, s, rd.sumcheck@, r.folding)
}

/// Evaluation `j` of claim `c` is the value of the stacked polynomial at the row
/// point followed by the column's own selector.
pub open spec fn true_claims(f: Poly, cfg: VerifyConfig, data: VerifyData, ch: Draws) -> bool {
    let openings = data.transcript.openings@;
    &&& openings.len() == cfg.claims@.len()
    &&& ch.opening_points.len() == cfg.claims@.len()
    &&& forall|c: int|
        0 <= c < openings.len() ==> (#[trigger] openings[c])@.len()
            == cfg.claims@[c].selectors@.len()
    &&& forall|c: int, j: int|
        0 <= c < openings.len() && 0 <= j < cfg.claims@[c].selectors@.len() ==> {
            let z = sample_point(ch.opening_points[c], cfg.claims@[c].row_vars as nat)
                + ext4::quads(cfg.claims@[c].selectors@[j]@);
            &&& z.len() == cfg.num_variables
            &&& multilinear::point::<Quartic>(ext4::quads(cfg.claims@[c].selectors@[j]@))
            &&& ext4::quad((#[trigger] openings[c]@[j])@) == f(z)
        }
}

/// The claims are true, and so is the opening of the proof.
pub open spec fn true_start(f: Poly, cfg: VerifyConfig, data: VerifyData, ch: Draws) -> bool {
    let n = cfg.num_variables as nat;
    &&& multilinear::polynomial::<Quartic>(f, n)
    &&& true_claims(f, cfg, data, ch)
    &&& true_answers(
        f,
        Seq::empty(),
        data.transcript.initial_ood_answers@,
        ch.initial_ood_points,
        n,
    )
    &&& true_sumcheck(
        f,
        cfg,
        ch,
        0,
        Seq::empty(),
        data.transcript.initial_sumcheck@,
        ch.initial_folding,
    )
}

/// The end of the proof is honest: the final polynomial holds `f`'s values at the
/// vertices of what is left.
pub open spec fn true_end(f: Poly, cfg: VerifyConfig, data: VerifyData, ch: Draws) -> bool {
    let last = verify::last(cfg);
    let s = verify::randomness_at(ch, last);
    let k = ch.final_folding.len();
    let table = ext4::quads(data.transcript.final_poly@);
    &&& s.len() + k == cfg.num_variables
    &&& table.len() == pow2(k)
    &&& forall|c: nat|
        c < pow2(k) ==> table[c as int] == f(
            s + #[trigger] multilinear::high_first::<Quartic>(c, k),
        )
    &&& true_rows(f, cfg, data, ch, last, k)
    &&& true_sumcheck(
        f,
        cfg,
        ch,
        last,
        s,
        data.transcript.final_sumcheck@,
        ch.final_folding,
    )
}

/// The draws are elements.
pub open spec fn drawn(ch: Draws) -> bool {
    &&& multilinear::point::<Quartic>(ch.initial_ood_points)
    &&& multilinear::point::<Quartic>(ch.opening_points)
    &&& ext4::canonical(ch.alpha)
    &&& multilinear::point::<Quartic>(ch.initial_folding)
    &&& forall|i: int|
        0 <= i < ch.rounds.len() ==> {
            &&& multilinear::point::<Quartic>((#[trigger] ch.rounds[i]).ood_points)
            &&& ext4::canonical(ch.rounds[i].combination)
            &&& multilinear::point::<Quartic>(ch.rounds[i].folding)
        }
    &&& multilinear::point::<Quartic>(ch.final_folding)
}

/// An honest proof of true claims on `f`, under the draws.
pub open spec fn honest(f: Poly, cfg: VerifyConfig, data: VerifyData, ch: Draws) -> bool {
    &&& drawn(ch)
    &&& ch.rounds.len() == verify::last(cfg)
    &&& true_start(f, cfg, data, ch)
    &&& forall|i: nat| i < verify::last(cfg) ==> #[trigger] true_round(f, cfg, data, ch, i)
    &&& true_end(f, cfg, data, ch)
}

// ---------------------------------------------------------------------------
// Arithmetic.
// ---------------------------------------------------------------------------

pub proof fn lemma_power_canonical(x: Quad, e: nat)
    ensures
        ext4::canonical(ext4::power(x, e)),
{
    if e > 0 {
        ext4::law_canonical(ext4::power(x, (e - 1) as nat), x);
    }
}

proof fn lemma_power_adds(x: Quad, a: nat, b: nat)
    ensures
        ext4::power(x, a + b) == ext4::times(ext4::power(x, a), ext4::power(x, b)),
    decreases b,
{
    lemma_power_canonical(x, a);
    if b == 0 {
        ext4::law_times_one(ext4::power(x, a));
    } else {
        lemma_power_adds(x, a, (b - 1) as nat);
        ext4::law_times_associates(ext4::power(x, a), ext4::power(x, (b - 1) as nat), x);
    }
}

/// Squaring `k` times is raising to `2^k`.
pub proof fn law_squared(y: Quad, k: nat)
    requires
        ext4::canonical(y),
    ensures
        model::squared(y, k) == ext4::power(y, pow2(k)),
    decreases k,
{
    vstd::arithmetic::power2::lemma2_to64();
    if k == 0 {
        reveal_with_fuel(ext4::power, 2);
        ext4::law_times_one(y);
    } else {
        law_squared(y, (k - 1) as nat);
        lemma_pow2_unfold(k);
        lemma_power_adds(y, pow2((k - 1) as nat), pow2((k - 1) as nat));
    }
}

proof fn lemma_expanded(y: Quad, m: nat)
    requires
        ext4::canonical(y),
    ensures
        model::expanded(y, m) == sample_point(y, m),
        multilinear::point::<Quartic>(sample_point(y, m)),
        sample_point(y, m).len() == m,
{
    let z = sample_point(y, m);
    assert forall|i: int| 0 <= i < m implies model::expanded(y, m)[i] == z[i] by {
        law_squared(y, (m - 1 - i) as nat);
    }
    assert forall|i: int| 0 <= i < m implies Quartic::has(#[trigger] z[i]) by {
        lemma_power_canonical(y, pow2((m - 1 - i) as nat));
    }
    assert(model::expanded(y, m) =~= z);
}

proof fn lemma_base_power(x: int, e: nat)
    ensures
        field::canonical(field::power(x, e)),
{
    if e > 0 {
        field::lemma_plus_canonical(field::power(x, (e - 1) as nat), x);
    }
}

proof fn lemma_lifted(u: int, v: int)
    ensures
        ext4::times(ext4::lifted(u), ext4::lifted(v)) == ext4::lifted(field::times(u, v)),
{
    ext4::law_times_lifted(ext4::lifted(u), v);
    assert(field::times(0, v) == 0) by {
        assert(0 * v == 0);
    }
}

/// A queried element's point, by its last coordinate and the squares before it.
proof fn lemma_domain_point(x: int, m: nat)
    requires
        field::canonical(x),
    ensures
        multilinear::point::<Quartic>(domain_point(x, m)),
        domain_point(x, m).len() == m,
        m > 0 ==> {
            &&& domain_point(x, m).last() == ext4::lifted(x)
            &&& domain_point(x, m).drop_last() == domain_point(
                field::times(x, x),
                (m - 1) as nat,
            )
            &&& domain_point(x, m).skip(1) == domain_point(x, (m - 1) as nat)
        },
{
    vstd::arithmetic::power2::lemma2_to64();
    let z = domain_point(x, m);
    assert forall|i: int| 0 <= i < m implies Quartic::has(#[trigger] z[i]) by {
        lemma_base_power(x, pow2((m - 1 - i) as nat));
    }
    if m > 0 {
        reveal_with_fuel(field::power, 2);
        assert(field::power(x, 1) == x) by {
            assert(1 * x == x);
            vstd::arithmetic::div_mod::lemma_small_mod(x as nat, P as nat);
        }
        let w = domain_point(field::times(x, x), (m - 1) as nat);
        assert forall|i: int| 0 <= i < m - 1 implies z.drop_last()[i] == w[i] by {
            let k = (m - 1 - i) as nat;
            lemma_pow2_unfold(k);
            field::law_power_square(x, pow2((k - 1) as nat));
        }
        assert(z.drop_last() =~= w);
        assert(z.skip(1) =~= domain_point(x, (m - 1) as nat));
    }
}

/// The equality weight.
proof fn lemma_eq(z: Seq<Quad>, r: Seq<Quad>)
    requires
        multilinear::point::<Quartic>(z),
        multilinear::point::<Quartic>(r),
        z.len() == r.len(),
    ensures
        multilinear::kernel::<Quartic>(false, z, r) == model::eq_at(z, r),
    decreases z.len(),
{
    if z.len() > 0 {
        multilinear::lemma_kernel_last::<Quartic>(false, z, r);
        let (zf, rf) = (z.drop_last(), r.drop_last());
        assert forall|i: int| 0 <= i < zf.len() implies Quartic::has(#[trigger] zf[i]) by {
            assert(Quartic::has(z[i]));
        }
        assert forall|i: int| 0 <= i < rf.len() implies Quartic::has(#[trigger] rf[i]) by {
            assert(Quartic::has(r[i]));
        }
        lemma_eq(zf, rf);
        let (a, b) = (z.last(), r.last());
        assert(Quartic::has(z[z.len() - 1]) && Quartic::has(r[r.len() - 1]));
        let u = ext4::minus(ext4::one(), a);
        ext4::law_canonical(ext4::one(), a);
        multilinear::lemma_blend::<Quartic>(u, a, b);
        ext4::law_plus_commutes(
            ext4::times(a, b),
            ext4::times(u, ext4::minus(ext4::one(), b)),
        );
    }
}

/// The weight of a queried element.
proof fn lemma_selected(acc: Quad, x: int, r: Seq<Quad>)
    requires
        ext4::canonical(acc),
        field::canonical(x),
        multilinear::point::<Quartic>(r),
    ensures
        model::selected(acc, x, r) == ext4::times(
            acc,
            multilinear::kernel::<Quartic>(true, domain_point(x, r.len()), r),
        ),
    decreases r.len(),
{
    let m = r.len();
    let z = domain_point(x, m);
    lemma_domain_point(x, m);
    if m == 0 {
        ext4::law_times_one(acc);
    } else {
        multilinear::lemma_kernel_last::<Quartic>(true, z, r);
        let rf = r.drop_last();
        assert forall|i: int| 0 <= i < rf.len() implies Quartic::has(#[trigger] rf[i]) by {
            assert(Quartic::has(r[i]));
        }
        assert(Quartic::has(r[m - 1]));
        let b = r.last();
        let d = ext4::lifted(field::minus(x, 1));
        assert(d == ext4::minus(ext4::lifted(x), ext4::one()));
        ext4::law_plus_commutes(ext4::times(b, d), ext4::one());
        let g = model::select_factor(x, b);
        assert(g == multilinear::factor::<Quartic>(true, z.last(), b));
        ext4::law_canonical(acc, g);
        field::lemma_plus_canonical(x, x);
        lemma_selected(ext4::times(acc, g), field::times(x, x), rf);
        let k = multilinear::kernel::<Quartic>(true, z.drop_last(), rf);
        ext4::law_times_associates(acc, g, k);
        ext4::law_times_commutes(g, k);
    }
}

/// Tables.
proof fn lemma_table(table: Seq<Quad>, r: Seq<Quad>)
    ensures
        multilinear::table_high::<Quartic>(table, r) == model::multilinear(table, r),
    decreases r.len(),
{
    if r.len() > 0 {
        assert(multilinear::paired::<Quartic>(table, r.last()) =~= model::halved(
            table,
            r.last(),
        ));
        lemma_table(model::halved(table, r.last()), r.drop_last());
    }
}

proof fn lemma_horner_canonical(a: Seq<Quad>, x: int)
    ensures
        ext4::canonical(model::horner(a, x)),
{
    if a.len() > 0 {
        ext4::law_canonical(
            ext4::times(model::horner(a.drop_first(), x), ext4::lifted(x)),
            a[0],
        );
    }
}

/// Coefficients in two parts.
proof fn lemma_horner_append(a: Seq<Quad>, b: Seq<Quad>, x: int)
    ensures
        model::horner(a + b, x) == ext4::plus(
            model::horner(a, x),
            ext4::times(ext4::lifted(field::power(x, a.len())), model::horner(b, x)),
        ),
    decreases a.len(),
{
    lemma_horner_canonical(b, x);
    let hb = model::horner(b, x);
    if a.len() == 0 {
        assert(a + b =~= b);
        assert(ext4::lifted(1) == ext4::one());
        ext4::law_times_one(hb);
        ext4::law_plus_zero(hb);
    } else {
        let t = a.drop_first();
        lemma_horner_append(t, b, x);
        assert((a + b).drop_first() =~= t + b);
        let lx = ext4::lifted(x);
        let p = ext4::lifted(field::power(x, t.len()));
        let ht = model::horner(t, x);
        ext4::law_times_distributes(ht, ext4::times(p, hb), lx);
        lemma_lifted(field::power(x, t.len()), x);
        ext4::law_times_commutes(p, hb);
        ext4::law_times_associates(hb, p, lx);
        ext4::law_times_commutes(hb, ext4::times(p, lx));
        let q = ext4::times(ext4::times(p, lx), hb);
        let h = ext4::times(ht, lx);
        ext4::law_plus_associates(h, q, a[0]);
        ext4::law_plus_commutes(q, a[0]);
        ext4::law_plus_associates(h, a[0], q);
    }
}

/// The vertices of the upper half.
proof fn lemma_vertex_first(c: nat, m: nat)
    requires
        m > 0,
        c < pow2(m),
    ensures
        c < pow2((m - 1) as nat) ==> multilinear::high_first::<Quartic>(c, m) == seq![ext4::zero()]
            + multilinear::high_first::<Quartic>(c, (m - 1) as nat),
        c >= pow2((m - 1) as nat) ==> multilinear::high_first::<Quartic>(c, m) == seq![ext4::one()]
            + multilinear::high_first::<Quartic>(
            (c - pow2((m - 1) as nat)) as nat,
            (m - 1) as nat,
        ),
    decreases m,
{
    vstd::arithmetic::power2::lemma2_to64();
    lemma_pow2_unfold(m);
    let h = pow2((m - 1) as nat);
    if m == 1 {
        reveal_with_fuel(multilinear::high_first, 2);
        assert(multilinear::high_first::<Quartic>(c, 1) =~= seq![
            multilinear::bit::<Quartic>(c % 2 == 1),
        ]);
        assert(multilinear::high_first::<Quartic>(0, 0) =~= Seq::<Quad>::empty());
        if c < 1 {
            assert(c == 0);
            assert(seq![ext4::zero()] + Seq::<Quad>::empty() =~= seq![ext4::zero()]);
        } else {
            assert(c == 1);
            assert(seq![ext4::one()] + Seq::<Quad>::empty() =~= seq![ext4::one()]);
        }
    } else {
        lemma_pow2_unfold((m - 1) as nat);
        let k = pow2((m - 2) as nat);
        lemma_vertex_first(c / 2, (m - 1) as nat);
        let b = multilinear::bit::<Quartic>(c % 2 == 1);
        if c < h {
            assert(c / 2 < k);
            let v = multilinear::high_first::<Quartic>(c / 2, (m - 2) as nat);
            assert((seq![ext4::zero()] + v).push(b) =~= seq![ext4::zero()] + v.push(b));
        } else {
            let d = (c - h) as nat;
            assert(c / 2 >= k);
            assert(d / 2 == c / 2 - k && d % 2 == c % 2);
            let v = multilinear::high_first::<Quartic>(d / 2, (m - 2) as nat);
            assert((seq![ext4::one()] + v).push(b) =~= seq![ext4::one()] + v.push(b));
        }
    }
}

/// A table of values, read as the coefficients of a univariate polynomial.
proof fn lemma_horner(f: Poly, table: Seq<Quad>, s: Seq<Quad>, x: int, m: nat)
    requires
        multilinear::polynomial::<Quartic>(f, s.len() + m),
        multilinear::point::<Quartic>(s),
        table.len() == pow2(m),
        forall|c: nat|
            c < pow2(m) ==> table[c as int] == f(
                s + #[trigger] multilinear::high_first::<Quartic>(c, m),
            ),
    ensures
        model::horner(table, x) == multilinear::coefficients_at::<Quartic>(
            f,
            s,
            domain_point(x, m),
        ),
    decreases m,
{
    vstd::arithmetic::power2::lemma2_to64();
    let z = domain_point(x, m);
    if m == 0 {
        assert(s + multilinear::high_first::<Quartic>(0, 0) =~= s);
        assert(model::horner(table.drop_first(), x) == ext4::zero());
        assert(Quartic::has(f(s)));
        assert(table[0] == f(s));
        assert(multilinear::coefficients_at::<Quartic>(f, s, z) == f(s));
        ext4::law_times_zero(ext4::lifted(x));
        ext4::law_plus_zero(f(s));
    } else {
        lemma_pow2_unfold(m);
        let k = (m - 1) as nat;
        let h = pow2(k);
        let (a, b) = (table.take(h as int), table.skip(h as int));
        assert(table =~= a + b);
        let (s0, s1) = (s.push(ext4::zero()), s.push(ext4::one()));
        multilinear::lemma_point_push::<Quartic>(s, ext4::zero());
        multilinear::lemma_point_push::<Quartic>(s, ext4::one());
        assert forall|c: nat| c < h implies a[c as int] == f(
            s0 + #[trigger] multilinear::high_first::<Quartic>(c, k),
        ) && b[c as int] == f(s1 + multilinear::high_first::<Quartic>(c, k)) by {
            let v = multilinear::high_first::<Quartic>(c, k);
            lemma_vertex_first(c, m);
            lemma_vertex_first(c + h, m);
            assert(table[c as int] == f(s + multilinear::high_first::<Quartic>(c, m)));
            assert(table[(c + h) as int] == f(
                s + multilinear::high_first::<Quartic>(c + h, m),
            ));
            assert(s + (seq![ext4::zero()] + v) =~= s0 + v);
            assert(s + (seq![ext4::one()] + v) =~= s1 + v);
        }
        lemma_horner(f, a, s0, x, k);
        lemma_horner(f, b, s1, x, k);
        lemma_horner_append(a, b, x);
        assert(z[0] == ext4::lifted(field::power(x, h)));
        assert(z.skip(1) =~= domain_point(x, k));
        assert(model::horner(table, x) == ext4::plus(
            model::horner(a, x),
            ext4::times(z[0], model::horner(b, x)),
        ));
    }
}

pub proof fn lemma_claim(claim: Quad, rs: Seq<SumcheckRoundData>, folding: Seq<Quad>, k: nat)
    ensures
        multilinear::claim_through::<Quartic>(claim, verify::polys(rs), folding, k)
            == model::sumcheck_claim(claim, verify::polys(rs), folding, k),
    decreases k,
{
    if k > 0 {
        lemma_claim(claim, rs, folding, (k - 1) as nat);
    }
}

/// What is combined into a claim is what the weights pick.
proof fn lemma_combined(
    base: Quad,
    chi: Quad,
    shift: nat,
    evals: Seq<Quad>,
    terms: Seq<Term<Quad>>,
    f: Poly,
    s: Seq<Quad>,
)
    requires
        evals.len() == terms.len(),
        forall|k: int|
            0 <= k < terms.len() ==> {
                &&& (#[trigger] terms[k]).coefficient == ext4::power(chi, (shift + k) as nat)
                &&& evals[k] == multilinear::picked::<Quartic>(terms[k].powers, f, s, terms[k].at)
            },
    ensures
        model::weighted(base, chi, shift, evals) == multilinear::gained::<Quartic>(
            base,
            terms,
            f,
            s,
        ),
    decreases terms.len(),
{
    if terms.len() > 0 {
        let front = terms.drop_last();
        assert forall|k: int| 0 <= k < front.len() implies {
            &&& (#[trigger] front[k]).coefficient == ext4::power(chi, (shift + k) as nat)
            &&& evals.drop_last()[k] == multilinear::picked::<Quartic>(
                front[k].powers,
                f,
                s,
                front[k].at,
            )
        } by {
            assert(front[k] == terms[k]);
        }
        lemma_combined(base, chi, shift, evals.drop_last(), front, f, s);
        let k = terms.len() - 1;
        assert(terms[k].coefficient == ext4::power(chi, (shift + k) as nat));
    }
}

/// The weights combined, on top of those before.
proof fn lemma_weighed(
    base: Quad,
    chi: Quad,
    shift: nat,
    ws: Seq<Quad>,
    terms: Seq<Term<Quad>>,
    p: Seq<Quad>,
)
    requires
        ws.len() == terms.len(),
        forall|k: int|
            0 <= k < terms.len() ==> {
                &&& (#[trigger] terms[k]).coefficient == ext4::power(chi, (shift + k) as nat)
                &&& ws[k] == multilinear::weight_at::<Quartic>(terms[k].powers, terms[k].at, p)
            },
    ensures
        model::weighted(base, chi, shift, ws) == multilinear::weighed::<Quartic>(base, terms, p),
    decreases terms.len(),
{
    if terms.len() > 0 {
        let front = terms.drop_last();
        assert forall|k: int| 0 <= k < front.len() implies {
            &&& (#[trigger] front[k]).coefficient == ext4::power(chi, (shift + k) as nat)
            &&& ws.drop_last()[k] == multilinear::weight_at::<Quartic>(
                front[k].powers,
                front[k].at,
                p,
            )
        } by {
            assert(front[k] == terms[k]);
        }
        lemma_weighed(base, chi, shift, ws.drop_last(), front, p);
        let k = terms.len() - 1;
        assert(terms[k].coefficient == ext4::power(chi, (shift + k) as nat));
    }
}

// ---------------------------------------------------------------------------
// The claims and the weights.
// ---------------------------------------------------------------------------

proof fn lemma_tail(p: Seq<Quad>, m: nat)
    requires
        multilinear::point::<Quartic>(p),
        m <= p.len(),
    ensures
        multilinear::point::<Quartic>(model::suffix(p, m)),
        model::suffix(p, m).len() == m,
{
    let t = model::suffix(p, m);
    assert forall|i: int| 0 <= i < t.len() implies Quartic::has(#[trigger] t[i]) by {
        assert(Quartic::has(p[p.len() - m + i]));
    }
}

/// The claims' points, evaluations and weights, claim by claim.
proof fn lemma_claims(f: Poly, cfg: VerifyConfig, data: VerifyData, ch: Draws, k: nat)
    requires
        drawn(ch),
        true_claims(f, cfg, data, ch),
        k <= cfg.claims@.len(),
    ensures
        verify::flat(data.transcript.openings@, k).len() == column_points(
            cfg,
            ch.opening_points,
            k,
        ).len(),
        forall|e: int|
            0 <= e < column_points(cfg, ch.opening_points, k).len() ==> {
                let z = #[trigger] column_points(cfg, ch.opening_points, k)[e];
                &&& z.len() == cfg.num_variables
                &&& multilinear::point::<Quartic>(z)
                &&& verify::flat(data.transcript.openings@, k)[e] == f(z)
            },
        forall|local: Seq<Quad>|
            #![trigger verify::all_claim_weights(cfg.claims@, ch.opening_points, local, k)]
            {
                let ws = verify::all_claim_weights(cfg.claims@, ch.opening_points, local, k);
                let zs = column_points(cfg, ch.opening_points, k);
                &&& ws.len() == zs.len()
                &&& forall|e: int|
                    0 <= e < ws.len() ==> #[trigger] ws[e] == model::eq_at(zs[e], local)
            },
    decreases k,
{
    if k > 0 {
        let c = k - 1;
        lemma_claims(f, cfg, data, ch, (k - 1) as nat);
        let us = ch.opening_points;
        let u = us[c];
        let shape = cfg.claims@[c];
        assert(Quartic::has(us[c]));
        lemma_expanded(u, shape.row_vars as nat);
        let before = column_points(cfg, us, (k - 1) as nat);
        let all = column_points(cfg, us, k);
        let openings = data.transcript.openings@;
        assert(openings[c]@.len() == shape.selectors@.len());
        assert forall|e: int| 0 <= e < all.len() implies {
            let z = #[trigger] all[e];
            &&& z.len() == cfg.num_variables
            &&& multilinear::point::<Quartic>(z)
            &&& verify::flat(openings, k)[e] == f(z)
        } by {
            if e < before.len() {
                assert(all[e] == before[e]);
            } else {
                let j = e - before.len();
                assert(all[e] == column_point(cfg, u, c, j));
                assert(ext4::quad(openings[c]@[j]@) == f(column_point(cfg, u, c, j)));
                multilinear::lemma_point_join::<Quartic>(
                    sample_point(u, shape.row_vars as nat),
                    ext4::quads(shape.selectors@[j]@),
                );
            }
        }
        assert forall|local: Seq<Quad>|
            #![trigger verify::all_claim_weights(cfg.claims@, ch.opening_points, local, k)]
            {
                let ws = verify::all_claim_weights(cfg.claims@, ch.opening_points, local, k);
                let zs = column_points(cfg, ch.opening_points, k);
                &&& ws.len() == zs.len()
                &&& forall|e: int|
                    0 <= e < ws.len() ==> #[trigger] ws[e] == model::eq_at(zs[e], local)
            } by {
            let ws = verify::all_claim_weights(cfg.claims@, us, local, k);
            let wb = verify::all_claim_weights(cfg.claims@, us, local, (k - 1) as nat);
            assert(wb.len() == before.len());
            assert forall|e: int| 0 <= e < ws.len() implies #[trigger] ws[e] == model::eq_at(
                all[e],
                local,
            ) by {
                if e < wb.len() {
                    assert(ws[e] == wb[e]);
                    assert(all[e] == before[e]);
                } else {
                    let j = e - wb.len();
                    assert(ws[e] == model::eq_at(verify::claim_point(shape, u, j), local));
                    assert(all[e] == column_point(cfg, u, c, j));
                }
            }
        }
    }
}

/// The commitment's weights are good.
proof fn lemma_initial_terms(f: Poly, cfg: VerifyConfig, data: VerifyData, ch: Draws)
    requires
        drawn(ch),
        true_start(f, cfg, data, ch),
    ensures
        multilinear::terms_ok::<Quartic>(initial_terms(cfg, ch), cfg.num_variables as nat),
        model::weighted(ext4::zero(), ch.alpha, 0, verify::initial_evals(data.transcript))
            == multilinear::gained::<Quartic>(
            ext4::zero(),
            initial_terms(cfg, ch),
            f,
            Seq::empty(),
        ),
        forall|r: Seq<Quad>|
            multilinear::point::<Quartic>(r) && r.len() == cfg.num_variables
                ==> #[trigger] verify::weight_at(cfg, ch, r, 0) == batched(cfg, ch, 0, r),
{
    let n = cfg.num_variables as nat;
    let c = cfg.claims@.len();
    lemma_claims(f, cfg, data, ch, c);
    let opened = column_points(cfg, ch.opening_points, c);
    let samples = sample_points(ch.initial_ood_points, n);
    let points = opened + samples;
    let terms = initial_terms(cfg, ch);
    let answers = data.transcript.initial_ood_answers@;
    let evals = verify::initial_evals(data.transcript);
    assert forall|k: int| 0 <= k < points.len() implies {
        &&& (#[trigger] points[k]).len() == n
        &&& multilinear::point::<Quartic>(points[k])
        &&& evals[k] == f(points[k])
    } by {
        if k < opened.len() {
            assert(points[k] == opened[k]);
        } else {
            let j = k - opened.len();
            assert(Quartic::has(ch.initial_ood_points[j]));
            lemma_expanded(ch.initial_ood_points[j], n);
            assert(ext4::quad(answers[j]@) == f(Seq::<Quad>::empty() + samples[j]));
            assert(Seq::<Quad>::empty() + samples[j] =~= samples[j]);
        }
    }
    assert forall|k: int| 0 <= k < terms.len() implies {
        &&& Quartic::has((#[trigger] terms[k]).coefficient)
        &&& multilinear::point::<Quartic>(terms[k].at)
        &&& terms[k].at.len() == n
        &&& terms[k].coefficient == ext4::power(ch.alpha, (0 + k) as nat)
        &&& evals[k] == multilinear::picked::<Quartic>(
            terms[k].powers,
            f,
            Seq::empty(),
            terms[k].at,
        )
    } by {
        lemma_power_canonical(ch.alpha, k as nat);
        assert(points[k].len() == n);
        assert(Seq::<Quad>::empty() + points[k] =~= points[k]);
    }
    lemma_combined(ext4::zero(), ch.alpha, 0, evals, terms, f, Seq::empty());
    assert forall|r: Seq<Quad>|
        multilinear::point::<Quartic>(r) && r.len() == n implies #[trigger] verify::weight_at(
        cfg,
        ch,
        r,
        0,
    ) == batched(cfg, ch, 0, r) by {
        let local = model::suffix(r, n);
        lemma_tail(r, n);
        let ws = verify::initial_weights(cfg, ch, local);
        let cw = verify::all_claim_weights(cfg.claims@, ch.opening_points, local, c);
        assert(cw.len() == opened.len());
        assert forall|k: int| 0 <= k < terms.len() implies {
            &&& (#[trigger] terms[k]).coefficient == ext4::power(ch.alpha, (0 + k) as nat)
            &&& ws[k] == multilinear::weight_at::<Quartic>(terms[k].powers, terms[k].at, r)
        } by {
            assert(points[k].len() == n);
            lemma_eq(points[k], local);
            if k < opened.len() {
                assert(ws[k] == cw[k]);
                assert(points[k] == opened[k]);
            } else {
                let j = k - opened.len();
                assert(Quartic::has(ch.initial_ood_points[j]));
                lemma_expanded(ch.initial_ood_points[j], n);
            }
        }
        lemma_weighed(ext4::zero(), ch.alpha, 0, ws, terms, r);
    }
}

/// Round `i`'s weights are good.
proof fn lemma_round_terms(cfg: VerifyConfig, ch: Draws, i: nat)
    requires
        drawn(ch),
        i < ch.rounds.len(),
    ensures
        multilinear::terms_ok::<Quartic>(
            round_terms(cfg, ch, i),
            cfg.rounds@[i as int].num_variables as nat,
        ),
        forall|k: int|
            0 <= k < round_terms(cfg, ch, i).len() ==> (#[trigger] round_terms(
                cfg,
                ch,
                i,
            )[k]).coefficient == ext4::power(ch.rounds[i as int].combination, (1 + k) as nat),
{
    let m = cfg.rounds@[i as int].num_variables as nat;
    let r = ch.rounds[i as int];
    let terms = round_terms(cfg, ch, i);
    let ood = r.ood_points.len();
    let idx = verify::positions(cfg, ch, i);
    assert forall|k: int| 0 <= k < terms.len() implies {
        &&& Quartic::has((#[trigger] terms[k]).coefficient)
        &&& multilinear::point::<Quartic>(terms[k].at)
        &&& terms[k].at.len() == m
        &&& terms[k].coefficient == ext4::power(r.combination, (1 + k) as nat)
    } by {
        lemma_power_canonical(r.combination, (1 + k) as nat);
        if k < ood {
            assert(Quartic::has(r.ood_points[k]));
            lemma_expanded(r.ood_points[k], m);
        } else {
            let q = k - ood;
            let x = field::power(verify::generator(cfg, i), idx[q] as nat);
            lemma_base_power(verify::generator(cfg, i), idx[q] as nat);
            lemma_domain_point(x, m);
        }
    }
}

/// The weight of a round on top of those before.
proof fn lemma_round_weight(cfg: VerifyConfig, ch: Draws, i: nat, r: Seq<Quad>)
    requires
        drawn(ch),
        i < ch.rounds.len(),
        cfg.rounds@[i as int].num_variables <= r.len(),
        multilinear::point::<Quartic>(r),
        verify::weight_at(cfg, ch, r, i) == batched(cfg, ch, i, r),
    ensures
        verify::weight_at(cfg, ch, r, i + 1) == batched(cfg, ch, i + 1, r),
{
    let m = cfg.rounds@[i as int].num_variables as nat;
    let rch = ch.rounds[i as int];
    let terms = round_terms(cfg, ch, i);
    let ood = rch.ood_points.len();
    lemma_round_terms(cfg, ch, i);
    let local = model::suffix(r, m);
    lemma_tail(r, m);
    let ws = verify::round_weights(cfg, ch, i, local);
    let idx = verify::positions(cfg, ch, i);
    assert forall|k: int| 0 <= k < terms.len() implies {
        &&& (#[trigger] terms[k]).coefficient == ext4::power(rch.combination, (1 + k) as nat)
        &&& ws[k] == multilinear::weight_at::<Quartic>(terms[k].powers, terms[k].at, r)
    } by {
        if k < ood {
            assert(Quartic::has(rch.ood_points[k]));
            lemma_expanded(rch.ood_points[k], m);
            lemma_eq(sample_point(rch.ood_points[k], m), local);
        } else {
            let q = k - ood;
            let x = field::power(verify::generator(cfg, i), idx[q] as nat);
            lemma_base_power(verify::generator(cfg, i), idx[q] as nat);
            lemma_selected(ext4::one(), x, local);
            lemma_domain_point(x, m);
            let w = multilinear::kernel::<Quartic>(true, domain_point(x, m), local);
            lemma_kernel_has(true, domain_point(x, m), local);
            ext4::law_times_one(w);
        }
    }
    lemma_weighed(batched(cfg, ch, i, r), rch.combination, 1, ws, terms, r);
}

proof fn lemma_kernel_has(powers: bool, z: Seq<Quad>, r: Seq<Quad>)
    requires
        multilinear::point::<Quartic>(z),
        multilinear::point::<Quartic>(r),
        z.len() == r.len(),
    ensures
        ext4::canonical(multilinear::kernel::<Quartic>(powers, z, r)),
{
    if z.len() > 0 {
        multilinear::lemma_kernel_last::<Quartic>(powers, z, r);
    }
}

proof fn lemma_randomness(ch: Draws, i: nat)
    requires
        drawn(ch),
        i <= ch.rounds.len(),
    ensures
        multilinear::point::<Quartic>(verify::randomness_at(ch, i)),
        multilinear::point::<Quartic>(bound_at_commitment(ch, i)),
        multilinear::point::<Quartic>(verify::folding_before(ch, i)),
        verify::randomness_at(ch, i) == bound_at_commitment(ch, i) + verify::folding_before(ch, i),
    decreases i,
{
    if i == 0 {
        assert(Seq::<Quad>::empty() + ch.initial_folding =~= ch.initial_folding);
    } else {
        lemma_randomness(ch, (i - 1) as nat);
        assert(multilinear::point::<Quartic>(ch.rounds[i - 1].folding));
        multilinear::lemma_point_join::<Quartic>(
            verify::randomness_at(ch, (i - 1) as nat),
            ch.rounds[i - 1].folding,
        );
    }
}

/// A true row folds to the folded codeword.
proof fn lemma_fold(f: Poly, ch: Draws, i: nat, row: Seq<Quad>, z: Seq<Quad>)
    requires
        drawn(ch),
        i <= ch.rounds.len(),
        multilinear::point::<Quartic>(z),
        true_row(f, ch, i, row, z),
        multilinear::polynomial::<Quartic>(f, verify::randomness_at(ch, i).len() + z.len()),
    ensures
        model::multilinear(row, verify::folding_before(ch, i))
            == multilinear::coefficients_at::<Quartic>(f, verify::randomness_at(ch, i), z),
{
    lemma_randomness(ch, i);
    let (s, r) = (bound_at_commitment(ch, i), verify::folding_before(ch, i));
    let none = Seq::<Quad>::empty();
    multilinear::lemma_coefficients_polynomial::<Quartic>(f, z, s.len() + r.len());
    let h = |q: Seq<Quad>| multilinear::coefficients_at::<Quartic>(f, q, z);
    assert forall|c: nat| c < pow2(r.len()) implies row[c as int] == h(
        s + #[trigger] multilinear::high_first::<Quartic>(c, r.len()) + none,
    ) by {
        let v = multilinear::high_first::<Quartic>(c, r.len());
        assert(s + v + none =~= s + v);
    }
    multilinear::lemma_table_high::<Quartic>(h, row, s, r, none);
    assert(s + r + none =~= s + r);
    lemma_table(row, r);
}

// ---------------------------------------------------------------------------
// The laws.
// ---------------------------------------------------------------------------

proof fn lemma_bound_fits(f: Poly, cfg: VerifyConfig, data: VerifyData, ch: Draws, i: nat)
    requires
        honest(f, cfg, data, ch),
        i <= ch.rounds.len(),
    ensures
        verify::randomness_at(ch, i).len() <= cfg.num_variables,
{
    if i < ch.rounds.len() {
        assert(true_round(f, cfg, data, ch, i));
    }
}

/// The claim and the weight stay in step: of an honest proof, the claim after
/// every round is the sum over the hypercube of the committed polynomial, folded
/// so far, times the batched weight, whose powers in each round are those of that
/// round's own challenge. The batched weight is the verifier's.
pub proof fn law_claim_in_step(f: Poly, cfg: VerifyConfig, data: VerifyData, ch: Draws, i: nat)
    requires
        honest(f, cfg, data, ch),
        i <= ch.rounds.len(),
    ensures
        multilinear::polynomial::<Quartic>(batched_poly(cfg, ch, i), cfg.num_variables as nat),
        verify::claim_at(cfg, data, ch, i) == multilinear::cube_sum::<Quartic>(
            multilinear::product::<Quartic>(f, batched_poly(cfg, ch, i)),
            verify::randomness_at(ch, i),
            (cfg.num_variables - verify::randomness_at(ch, i).len()) as nat,
        ),
        forall|r: Seq<Quad>|
            multilinear::point::<Quartic>(r) && r.len() == cfg.num_variables
                ==> #[trigger] verify::weight_at(cfg, ch, r, i) == batched(cfg, ch, i, r),
    decreases i,
{
    let n = cfg.num_variables as nat;
    let w = batched_poly(cfg, ch, i);
    lemma_randomness(ch, i);
    lemma_bound_fits(f, cfg, data, ch, i);
    if i == 0 {
        lemma_initial_terms(f, cfg, data, ch);
        let none = Seq::<Quad>::empty();
        multilinear::lemma_no_weight::<Quartic>(f, none, n);
        let zero = |q: Seq<Quad>| Quartic::zero();
        multilinear::law_batch::<Quartic>(f, zero, w, none, n, initial_terms(cfg, ch));
        let rs = data.transcript.initial_sumcheck@;
        multilinear::law_sumcheck::<Quartic>(
            f,
            w,
            none,
            n,
            verify::polys(rs),
            ch.initial_folding,
            rs.len(),
        );
        lemma_claim(
            model::weighted(ext4::zero(), ch.alpha, 0, verify::initial_evals(data.transcript)),
            rs,
            ch.initial_folding,
            rs.len(),
        );
        assert(none + ch.initial_folding.take(rs.len() as int) =~= ch.initial_folding);
    } else {
        let j = (i - 1) as nat;
        law_claim_in_step(f, cfg, data, ch, j);
        assert(true_round(f, cfg, data, ch, j));
        lemma_randomness(ch, j);
        let s = verify::randomness_at(ch, j);
        let u = batched_poly(cfg, ch, j);
        let terms = round_terms(cfg, ch, j);
        let rd = data.transcript.rounds@[j as int];
        let rch = ch.rounds[j as int];
        let m = cfg.rounds@[j as int].num_variables as nat;
        lemma_round_terms(cfg, ch, j);
        multilinear::law_batch::<Quartic>(f, u, w, s, n, terms);
        let before = verify::claim_at(cfg, data, ch, j);
        let o = verify::opening(cfg, data, j);
        let idx = verify::positions(cfg, ch, j);
        let evals = verify::round_evals(cfg, data, ch, j);
        let ood = rch.ood_points.len();
        assert forall|k: int| 0 <= k < terms.len() implies {
            &&& (#[trigger] terms[k]).coefficient == ext4::power(rch.combination, (1 + k) as nat)
            &&& evals[k] == multilinear::picked::<Quartic>(terms[k].powers, f, s, terms[k].at)
        } by {
            if k < ood {
                assert(ext4::quad(rd.ood_answers@[k]@) == f(
                    s + sample_point(rch.ood_points[k], m),
                ));
            } else {
                let q = k - ood;
                let x = field::power(verify::generator(cfg, j), idx[q] as nat);
                lemma_base_power(verify::generator(cfg, j), idx[q] as nat);
                lemma_domain_point(x, m);
                let row = verify::row_elems(o.extension, o.rows@[q]@);
                assert(true_row(f, ch, j, row, domain_point(x, m)));
                lemma_fold(f, ch, j, row, domain_point(x, m));
            }
        }
        lemma_combined(before, rch.combination, 1, evals, terms, f, s);
        let rs = rd.sumcheck@;
        multilinear::law_sumcheck::<Quartic>(
            f,
            w,
            s,
            n,
            verify::polys(rs),
            rch.folding,
            rs.len(),
        );
        let all = model::weighted(before, rch.combination, 1, evals);
        lemma_claim(all, rs, rch.folding, rs.len());
        assert(rch.folding.take(rs.len() as int) =~= rch.folding);
        assert forall|r: Seq<Quad>|
            multilinear::point::<Quartic>(r) && r.len() == n implies #[trigger] verify::weight_at(
            cfg,
            ch,
            r,
            i,
        ) == batched(cfg, ch, i, r) by {
            assert(verify::weight_at(cfg, ch, r, j) == batched(cfg, ch, j, r));
            lemma_round_weight(cfg, ch, j, r);
        }
    }
}

/// An honest proof of true claims closes, for any number of claims, columns and
/// rounds and whatever is drawn, and its final folds agree with its final
/// polynomial.
pub proof fn law_honest_proofs_close(f: Poly, cfg: VerifyConfig, data: VerifyData, ch: Draws)
    requires
        honest(f, cfg, data, ch),
    ensures
        verify::final_claim(cfg, data, ch) == verify::expected(cfg, data, ch),
        verify::all_agree(cfg, data, ch),
{
    let n = cfg.num_variables as nat;
    let last = verify::last(cfg);
    let s = verify::randomness_at(ch, last);
    let r = ch.final_folding;
    let k = r.len();
    let w = batched_poly(cfg, ch, last);
    let none = Seq::<Quad>::empty();
    law_claim_in_step(f, cfg, data, ch, last);
    lemma_randomness(ch, last);
    let rs = data.transcript.final_sumcheck@;
    multilinear::law_sumcheck::<Quartic>(f, w, s, n, verify::polys(rs), r, k);
    lemma_claim(verify::claim_at(cfg, data, ch, last), rs, r, k);
    assert(r.take(k as int) =~= r);
    let all = s + r;
    multilinear::lemma_point_join::<Quartic>(s, r);
    assert(verify::weight_at(cfg, ch, all, last) == w(all));
    let table = ext4::quads(data.transcript.final_poly@);
    assert forall|c: nat| c < pow2(k) implies table[c as int] == f(
        s + #[trigger] multilinear::high_first::<Quartic>(c, k) + none,
    ) by {
        let v = multilinear::high_first::<Quartic>(c, k);
        assert(s + v + none =~= s + v);
    }
    multilinear::lemma_table_high::<Quartic>(f, table, s, r, none);
    assert(s + r + none =~= all);
    lemma_table(table, r);
    assert(Quartic::has(f(all)) && Quartic::has(w(all)));
    ext4::law_times_commutes(f(all), w(all));
    assert forall|q: int| 0 <= q < ch.final_queries.len() implies #[trigger] verify::agrees(
        cfg,
        data,
        ch,
        q,
    ) by {
        let o = data.final_opening;
        let g = verify::generator(cfg, last);
        let x = field::power(g, ch.final_queries[q] as nat);
        lemma_base_power(g, ch.final_queries[q] as nat);
        lemma_domain_point(x, k);
        let row = verify::row_elems(o.extension, o.rows@[q]@);
        assert(true_row(f, ch, last, row, domain_point(x, k)));
        lemma_fold(f, ch, last, row, domain_point(x, k));
        lemma_horner(f, table, s, x, k);
    }
}

/// The weight of a claim's evaluation at a vertex of the hypercube is one at the
/// row and column that it names and zero elsewhere: two columns with different
/// selectors are never weighed alike.
pub proof fn law_columns_are_told_apart(z: Seq<bool>, b: Seq<bool>)
    requires
        z.len() == b.len(),
    ensures
        model::eq_at(vertex(z), vertex(b)) == (if z == b {
            ext4::one()
        } else {
            ext4::zero()
        }),
    decreases z.len(),
{
    if z.len() == 0 {
        assert(z =~= b);
    } else {
        law_columns_are_told_apart(z.drop_last(), b.drop_last());
        assert(vertex(z).drop_last() =~= vertex(z.drop_last()));
        assert(vertex(b).drop_last() =~= vertex(b.drop_last()));
        let (x, y) = (vertex(z).last(), vertex(b).last());
        ext4::law_times_one(ext4::one());
        ext4::law_times_zero(ext4::one());
        ext4::law_times_zero(ext4::zero());
        assert(ext4::minus(ext4::one(), ext4::one()) == ext4::zero());
        assert(ext4::minus(ext4::one(), ext4::zero()) == ext4::one());
        assert(model::eq_factor(x, y) == (if z.last() == b.last() {
            ext4::one()
        } else {
            ext4::zero()
        }));
        if z.last() == b.last() && z.drop_last() == b.drop_last() {
            assert(z =~= z.drop_last().push(z.last()));
            assert(b =~= b.drop_last().push(b.last()));
        }
    }
}

/// The point of a vertex.
pub open spec fn vertex(b: Seq<bool>) -> Seq<Quad> {
    Seq::new(b.len(), |i: int| multilinear::bit::<Quartic>(b[i]))
}

// ---------------------------------------------------------------------------
// The whole verifier.
// ---------------------------------------------------------------------------

/// The opening checked in round `i` is one of the tree over the leaf digests
/// `leaf`, which the root commits to.
pub open spec fn true_tree(
    cfg: VerifyConfig,
    data: VerifyData,
    ch: Draws,
    i: nat,
    leaf: spec_fn(int) -> Seq<int>,
) -> bool {
    let o = verify::opening(cfg, data, i);
    let idx = verify::positions(cfg, ch, i);
    let depth = verify::depth(cfg, i);
    let root = verify::root_before(data, i);
    &&& root.len() == 8
    &&& permutation::ints(root) == merkle::tree_node::<Poseidon2Tree>(leaf, depth, 0)
    &&& o.rows@.len() == idx.len()
    &&& forall|q: int| 0 <= q < idx.len() ==> 0 <= #[trigger] idx[q] < pow2(depth)
    &&& forall|q: int|
        0 <= q < idx.len() ==> permutation::row_digest(
            permutation::ints((#[trigger] o.rows@[q])@),
        ) == leaf(idx[q])
    &&& merkle::true_boundaries::<Poseidon2Tree>(
        leaf,
        merkle::sorted_unique(idx),
        permutation::digests(o.boundaries@),
        depth,
    )
}

/// A pruned opening of the committed tree passes, whatever positions are queried
/// and however often.
pub proof fn law_true_openings_pass(
    cfg: VerifyConfig,
    data: VerifyData,
    ch: Draws,
    i: nat,
    leaf: spec_fn(int) -> Seq<int>,
)
    requires
        true_tree(cfg, data, ch, i, leaf),
    ensures
        verify::opened(cfg, data, ch, i),
{
    let o = verify::opening(cfg, data, i);
    let idx = verify::positions(cfg, ch, i);
    let depth = verify::depth(cfg, i);
    let bnd = permutation::digests(o.boundaries@);
    let leaves = verify::leaves(o);
    vstd::arithmetic::power2::lemma2_to64();
    assert forall|q: int| 0 <= q < idx.len() implies #[trigger] leaves[q] == leaf(idx[q]) by {
        assert(permutation::row_digest(permutation::ints(o.rows@[q]@)) == leaf(idx[q]));
    }
    assert(verify::round_shaped(cfg, data, ch, i)) by {
        assert forall|q: int| 0 <= q < idx.len() implies (#[trigger] idx[q]) < pow2(depth) by {}
    }
    assert forall|q: int| 0 <= q < idx.len() implies #[trigger] verify::round_authentic(
        cfg,
        data,
        ch,
        i,
        q,
    ) by {
        let sibs = verify::siblings(o, idx, depth, q);
        assert forall|l: int| 0 <= l < depth implies #[trigger] sibs[l]
            == merkle::tree_node::<Poseidon2Tree>(
            leaf,
            l as nat,
            merkle::sib(merkle::ancestor(idx[q], l as nat)),
        ) by {
            merkle::law_pruned_paths_are_true::<Poseidon2Tree>(
                leaf,
                idx,
                leaves,
                bnd,
                depth,
                q,
                l as nat,
            );
        }
        merkle::law_true_siblings_reach_the_root::<Poseidon2Tree>(leaf, idx[q], sibs, depth);
        assert(0 <= idx[q] < pow2(depth + 0));
        merkle::lemma_ancestor_bound(idx[q], depth, 0);
        assert(leaves[q] == leaf(idx[q]));
    }
}

/// An honest proof of true claims, its work done and its openings those of the
/// committed trees, is accepted.
pub proof fn law_honest_proofs_are_accepted(
    f: Poly,
    cfg: VerifyConfig,
    data: VerifyData,
    ch: Draws,
    trees: Seq<spec_fn(int) -> Seq<int>>,
)
    requires
        honest(f, cfg, data, ch),
        ch.pow_ok,
        forall|i: nat|
            i <= verify::last(cfg) ==> #[trigger] true_tree(cfg, data, ch, i, trees[i as int]),
    ensures
        verify::accepts(cfg, data, ch),
{
    law_honest_proofs_close(f, cfg, data, ch);
    assert forall|i: nat| i < verify::last(cfg) + 1 implies #[trigger] verify::opened(
        cfg,
        data,
        ch,
        i,
    ) by {
        assert(true_tree(cfg, data, ch, i, trees[i as int]));
        law_true_openings_pass(cfg, data, ch, i, trees[i as int]);
    }
}

} // verus!

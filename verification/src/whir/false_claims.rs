//! Of two proofs that differ in one claimed value alone at most one closes: every
//! claimed evaluation, out-of-domain answer and fold reaches the closing identity.
use super::honest;
use super::honest::Quartic;
use super::model;
use super::reference::{Draws, SumcheckRoundData};
use super::verify;
use super::verify::{VerifyConfig, VerifyData};
use crate::apart;
use crate::multilinear;
use crate::multilinear::Algebra;
use crate::poseidon2::ext4;
use crate::poseidon2::ext4::Quad;
use vstd::prelude::*;

verus! {

/// Units all: the challenges of the batches and of the sumchecks.
pub open spec fn invertible(ch: Draws) -> bool {
    &&& ext4::canonical(ch.alpha)
    &&& apart::unit::<Quartic>(ch.alpha)
    &&& apart::units::<Quartic>(ch.initial_folding)
    &&& apart::units::<Quartic>(ch.final_folding)
    &&& forall|i: int|
        0 <= i < ch.rounds.len() ==> {
            &&& ext4::canonical((#[trigger] ch.rounds[i]).combination)
            &&& apart::unit::<Quartic>(ch.rounds[i].combination)
            &&& apart::units::<Quartic>(ch.rounds[i].folding)
        }
}

/// Canonical messages, no more of them than challenges.
pub open spec fn messages_ok(rs: Seq<SumcheckRoundData>, folding: Seq<Quad>) -> bool {
    &&& apart::pairs::<Quartic>(verify::polys(rs))
    &&& rs.len() <= folding.len()
}

/// The values of round `i`: its answers, then its rows' folds.
pub open spec fn round_ok(cfg: VerifyConfig, data: VerifyData, ch: Draws, i: nat) -> bool {
    &&& multilinear::point::<Quartic>(ext4::quads(data.transcript.rounds@[i as int].ood_answers@))
    &&& multilinear::point::<Quartic>(
        verify::folds(verify::opening(cfg, data, i), verify::folding_before(ch, i)),
    )
    &&& messages_ok(data.transcript.rounds@[i as int].sumcheck@, ch.rounds[i as int].folding)
}

/// Canonical values all, and no more sumcheck messages than challenges.
pub open spec fn elements(cfg: VerifyConfig, data: VerifyData, ch: Draws) -> bool {
    &&& forall|k: int|
        0 <= k < data.transcript.openings@.len() ==> multilinear::point::<Quartic>(
            ext4::quads(#[trigger] data.transcript.openings@[k]@),
        )
    &&& multilinear::point::<Quartic>(ext4::quads(data.transcript.initial_ood_answers@))
    &&& messages_ok(data.transcript.initial_sumcheck@, ch.initial_folding)
    &&& messages_ok(data.transcript.final_sumcheck@, ch.final_folding)
    &&& verify::last(cfg) <= ch.rounds.len()
    &&& forall|i: nat| i < verify::last(cfg) ==> #[trigger] round_ok(cfg, data, ch, i)
}

// ---------------------------------------------------------------------------
// The steps.
// ---------------------------------------------------------------------------

proof fn lemma_power(x: Quad, e: nat)
    ensures
        ext4::power(x, e) == apart::power::<Quartic>(x, e),
    decreases e,
{
    if e > 0 {
        lemma_power(x, (e - 1) as nat);
    }
}

proof fn lemma_batched(b: Quad, chi: Quad, shift: nat, evals: Seq<Quad>)
    ensures
        model::weighted(b, chi, shift, evals) == apart::batched::<Quartic>(b, chi, shift, evals),
    decreases evals.len(),
{
    if evals.len() > 0 {
        lemma_batched(b, chi, shift, evals.drop_last());
        lemma_power(chi, (shift + evals.len() - 1) as nat);
    }
}

/// Two batches that differ in their base alone, or in one value alone.
proof fn lemma_weighted_apart(
    b: Quad,
    c: Quad,
    chi: Quad,
    shift: nat,
    x: Seq<Quad>,
    y: Seq<Quad>,
    j: int,
)
    requires
        ext4::canonical(b),
        ext4::canonical(c),
        ext4::canonical(chi),
        apart::unit::<Quartic>(chi),
        multilinear::point::<Quartic>(x),
        multilinear::point::<Quartic>(y),
        x.len() == y.len(),
        forall|k: int| 0 <= k < x.len() && k != j ==> #[trigger] x[k] == y[k],
    ensures
        ext4::canonical(model::weighted(b, chi, shift, x)),
        ext4::canonical(model::weighted(c, chi, shift, y)),
        b != c && !(0 <= j < x.len()) ==> model::weighted(b, chi, shift, x) != model::weighted(
            c,
            chi,
            shift,
            y,
        ),
        b == c && 0 <= j < x.len() && x[j] != y[j] ==> model::weighted(b, chi, shift, x)
            != model::weighted(c, chi, shift, y),
        b == c && !(0 <= j < x.len()) ==> model::weighted(b, chi, shift, x) == model::weighted(
            c,
            chi,
            shift,
            y,
        ),
{
    lemma_batched(b, chi, shift, x);
    lemma_batched(c, chi, shift, y);
    apart::lemma_batched_apart::<Quartic>(b, c, chi, shift, x, y, j);
    assert(Quartic::has(apart::batched::<Quartic>(b, chi, shift, x)));
    assert(Quartic::has(apart::batched::<Quartic>(c, chi, shift, y)));
}

proof fn lemma_reduced_apart(c: Quad, d: Quad, rs: Seq<SumcheckRoundData>, folding: Seq<Quad>)
    requires
        ext4::canonical(c),
        ext4::canonical(d),
        messages_ok(rs, folding),
        apart::units::<Quartic>(folding),
    ensures
        ext4::canonical(verify::reduced(c, rs, folding)),
        ext4::canonical(verify::reduced(d, rs, folding)),
        c != d ==> verify::reduced(c, rs, folding) != verify::reduced(d, rs, folding),
{
    let ms = verify::polys(rs);
    let n = rs.len();
    honest::lemma_claim(c, rs, folding, n);
    honest::lemma_claim(d, rs, folding, n);
    apart::lemma_through_apart::<Quartic>(c, d, ms, folding, n);
    assert(Quartic::has(multilinear::claim_through::<Quartic>(c, ms, folding, n)));
    assert(Quartic::has(multilinear::claim_through::<Quartic>(d, ms, folding, n)));
}

proof fn lemma_join(a: Seq<Quad>, b: Seq<Quad>)
    requires
        multilinear::point::<Quartic>(a),
        multilinear::point::<Quartic>(b),
    ensures
        multilinear::point::<Quartic>(a + b),
{
    assert forall|i: int| 0 <= i < (a + b).len() implies Quartic::has(#[trigger] (a + b)[i]) by {
        if i < a.len() {
            assert(Quartic::has(a[i]));
        } else {
            assert(Quartic::has(b[i - a.len()]));
        }
    }
}

proof fn lemma_flat(data: VerifyData, n: nat)
    requires
        n <= data.transcript.openings@.len(),
        forall|k: int|
            0 <= k < data.transcript.openings@.len() ==> multilinear::point::<Quartic>(
                ext4::quads(#[trigger] data.transcript.openings@[k]@),
            ),
    ensures
        multilinear::point::<Quartic>(verify::flat(data.transcript.openings@, n)),
    decreases n,
{
    if n > 0 {
        let os = data.transcript.openings@;
        lemma_flat(data, (n - 1) as nat);
        assert(multilinear::point::<Quartic>(ext4::quads(os[n - 1]@)));
        lemma_join(verify::flat(os, (n - 1) as nat), ext4::quads(os[n - 1]@));
    }
}

proof fn lemma_initial(cfg: VerifyConfig, data: VerifyData, ch: Draws)
    requires
        elements(cfg, data, ch),
    ensures
        multilinear::point::<Quartic>(verify::initial_evals(data.transcript)),
{
    let os = data.transcript.openings@;
    lemma_flat(data, os.len());
    lemma_join(
        verify::flat(os, os.len()),
        ext4::quads(data.transcript.initial_ood_answers@),
    );
}

/// The claims of two proofs after `k` rounds: canonical, and different after round
/// `k` where they were different after round `i` and what comes between is the same.
proof fn lemma_claims_apart(
    cfg: VerifyConfig,
    p: VerifyData,
    q: VerifyData,
    ch: Draws,
    i: nat,
    k: nat,
)
    requires
        invertible(ch),
        elements(cfg, p, ch),
        elements(cfg, q, ch),
        i <= k <= verify::last(cfg),
        verify::claim_at(cfg, p, ch, i) != verify::claim_at(cfg, q, ch, i),
        forall|l: nat| i <= l < k ==> #[trigger] same_round(cfg, p, q, ch, l),
    ensures
        verify::claim_at(cfg, p, ch, k) != verify::claim_at(cfg, q, ch, k),
    decreases k,
{
    if i < k {
        let l = (k - 1) as nat;
        lemma_claims_apart(cfg, p, q, ch, i, l);
        lemma_canonical(cfg, p, ch, l);
        lemma_canonical(cfg, q, ch, l);
        assert(same_round(cfg, p, q, ch, l));
        assert(round_ok(cfg, p, ch, l));
        let rch = ch.rounds[l as int];
        let xs = verify::round_evals(cfg, p, ch, l);
        lemma_join(
            ext4::quads(p.transcript.rounds@[l as int].ood_answers@),
            verify::folds(verify::opening(cfg, p, l), verify::folding_before(ch, l)),
        );
        let (c, d) = (verify::claim_at(cfg, p, ch, l), verify::claim_at(cfg, q, ch, l));
        lemma_weighted_apart(c, d, rch.combination, 1, xs, xs, -1);
        lemma_reduced_apart(
            model::weighted(c, rch.combination, 1, xs),
            model::weighted(d, rch.combination, 1, xs),
            p.transcript.rounds@[l as int].sumcheck@,
            rch.folding,
        );
    }
}

proof fn lemma_canonical(cfg: VerifyConfig, p: VerifyData, ch: Draws, k: nat)
    requires
        invertible(ch),
        elements(cfg, p, ch),
        k <= verify::last(cfg),
    ensures
        ext4::canonical(verify::claim_at(cfg, p, ch, k)),
    decreases k,
{
    Quartic::constants();
    if k == 0 {
        let xs = verify::initial_evals(p.transcript);
        lemma_initial(cfg, p, ch);
        let z = ext4::zero();
        lemma_weighted_apart(z, z, ch.alpha, 0, xs, xs, -1);
        let c = model::weighted(z, ch.alpha, 0, xs);
        lemma_reduced_apart(c, c, p.transcript.initial_sumcheck@, ch.initial_folding);
    } else {
        let l = (k - 1) as nat;
        lemma_canonical(cfg, p, ch, l);
        assert(round_ok(cfg, p, ch, l));
        let rch = ch.rounds[l as int];
        let xs = verify::round_evals(cfg, p, ch, l);
        lemma_join(
            ext4::quads(p.transcript.rounds@[l as int].ood_answers@),
            verify::folds(verify::opening(cfg, p, l), verify::folding_before(ch, l)),
        );
        let c = verify::claim_at(cfg, p, ch, l);
        lemma_weighted_apart(c, c, rch.combination, 1, xs, xs, -1);
        let d = model::weighted(c, rch.combination, 1, xs);
        lemma_reduced_apart(d, d, p.transcript.rounds@[l as int].sumcheck@, rch.folding);
    }
}

// ---------------------------------------------------------------------------
// The laws.
// ---------------------------------------------------------------------------

/// Round `l` has the same answers, the same rows and the same messages in both
/// proofs.
pub open spec fn same_round(
    cfg: VerifyConfig,
    p: VerifyData,
    q: VerifyData,
    ch: Draws,
    l: nat,
) -> bool {
    &&& ext4::quads(p.transcript.rounds@[l as int].ood_answers@) == ext4::quads(
        q.transcript.rounds@[l as int].ood_answers@,
    )
    &&& verify::folds(verify::opening(cfg, p, l), verify::folding_before(ch, l))
        == verify::folds(verify::opening(cfg, q, l), verify::folding_before(ch, l))
    &&& p.transcript.rounds@[l as int].sumcheck@ == q.transcript.rounds@[l as int].sumcheck@
}

/// The same messages at the end.
pub open spec fn same_end(p: VerifyData, q: VerifyData) -> bool {
    &&& p.transcript.final_sumcheck@ == q.transcript.final_sumcheck@
    &&& p.transcript.final_poly@ == q.transcript.final_poly@
}

/// The closing identity holds.
pub open spec fn closes(cfg: VerifyConfig, data: VerifyData, ch: Draws) -> bool {
    verify::final_claim(cfg, data, ch) == verify::expected(cfg, data, ch)
}

proof fn lemma_one_closes(cfg: VerifyConfig, p: VerifyData, q: VerifyData, ch: Draws)
    requires
        invertible(ch),
        elements(cfg, p, ch),
        elements(cfg, q, ch),
        same_end(p, q),
        verify::claim_at(cfg, p, ch, verify::last(cfg)) != verify::claim_at(
            cfg,
            q,
            ch,
            verify::last(cfg),
        ),
    ensures
        !(closes(cfg, p, ch) && closes(cfg, q, ch)),
{
    let n = verify::last(cfg);
    lemma_canonical(cfg, p, ch, n);
    lemma_canonical(cfg, q, ch, n);
    lemma_reduced_apart(
        verify::claim_at(cfg, p, ch, n),
        verify::claim_at(cfg, q, ch, n),
        p.transcript.final_sumcheck@,
        ch.final_folding,
    );
}

/// The openings of two proofs are the same but for evaluation `j` of claim `k`.
pub open spec fn one_opening(p: VerifyData, q: VerifyData, k: int, j: int) -> bool {
    let (a, b) = (p.transcript.openings@, q.transcript.openings@);
    &&& a.len() == b.len()
    &&& 0 <= k < a.len()
    &&& 0 <= j < a[k]@.len()
    &&& ext4::quad(a[k]@[j]@) != ext4::quad(b[k]@[j]@)
    &&& forall|x: int| 0 <= x < a.len() ==> (#[trigger] a[x])@.len() == b[x]@.len()
    &&& forall|x: int, y: int|
        0 <= x < a.len() && 0 <= y < a[x]@.len() && !(x == k && y == j) ==> (#[trigger] a[x]@[y])
            == b[x]@[y]
}

proof fn lemma_changed(p: VerifyData, q: VerifyData, k: int, j: int, n: nat)
    requires
        one_opening(p, q, k, j),
        n <= p.transcript.openings@.len(),
    ensures
        verify::flat(p.transcript.openings@, n).len() == verify::flat(
            q.transcript.openings@,
            n,
        ).len(),
        n <= k ==> verify::flat(p.transcript.openings@, n) == verify::flat(
            q.transcript.openings@,
            n,
        ),
        n > k ==> {
            let (x, y) = (
                verify::flat(p.transcript.openings@, n),
                verify::flat(q.transcript.openings@, n),
            );
            let at = verify::flat(p.transcript.openings@, k as nat).len() + j;
            &&& at < x.len()
            &&& x[at] != y[at]
            &&& forall|i: int| 0 <= i < x.len() && i != at ==> #[trigger] x[i] == y[i]
        },
    decreases n,
{
    if n > 0 {
        let m = (n - 1) as nat;
        lemma_changed(p, q, k, j, m);
        let (a, b) = (p.transcript.openings@, q.transcript.openings@);
        let (u, v) = (ext4::quads(a[m as int]@), ext4::quads(b[m as int]@));
        assert(a[m as int]@.len() == b[m as int]@.len());
        assert forall|y: int| 0 <= y < u.len() && !(m == k && y == j) implies #[trigger] u[y]
            == v[y] by {
            assert(a[m as int]@[y] == b[m as int]@[y]);
        }
        if m != k {
            assert(u =~= v);
        }
        if n > k {
            let (x, y) = (verify::flat(a, n), verify::flat(b, n));
            let (f, g) = (verify::flat(a, m), verify::flat(b, m));
            let at = verify::flat(a, k as nat).len() + j;
            assert forall|i: int| 0 <= i < x.len() && i != at implies #[trigger] x[i] == y[i] by {
                if i < f.len() {
                    assert(x[i] == f[i] && y[i] == g[i]);
                } else {
                    assert(x[i] == u[i - f.len()] && y[i] == v[i - f.len()]);
                }
            }
            if m == k {
                assert(x[at] == u[j] && y[at] == v[j]);
            } else {
                assert(x[at] == f[at] && y[at] == g[at]);
            }
        }
    }
}

/// The initial claims differ, and all that follows is the same.
proof fn lemma_start_counts(
    cfg: VerifyConfig,
    p: VerifyData,
    q: VerifyData,
    ch: Draws,
    at: int,
)
    requires
        invertible(ch),
        elements(cfg, p, ch),
        elements(cfg, q, ch),
        p.transcript.initial_sumcheck@ == q.transcript.initial_sumcheck@,
        forall|l: nat| l < verify::last(cfg) ==> #[trigger] same_round(cfg, p, q, ch, l),
        same_end(p, q),
        verify::initial_evals(p.transcript).len() == verify::initial_evals(q.transcript).len(),
        0 <= at < verify::initial_evals(p.transcript).len(),
        verify::initial_evals(p.transcript)[at] != verify::initial_evals(q.transcript)[at],
        forall|i: int|
            0 <= i < verify::initial_evals(p.transcript).len() && i != at
                ==> #[trigger] verify::initial_evals(p.transcript)[i] == verify::initial_evals(
                q.transcript,
            )[i],
    ensures
        !(closes(cfg, p, ch) && closes(cfg, q, ch)),
{
    Quartic::constants();
    let (x, y) = (verify::initial_evals(p.transcript), verify::initial_evals(q.transcript));
    lemma_initial(cfg, p, ch);
    lemma_initial(cfg, q, ch);
    let z = ext4::zero();
    lemma_weighted_apart(z, z, ch.alpha, 0, x, y, at);
    lemma_reduced_apart(
        model::weighted(z, ch.alpha, 0, x),
        model::weighted(z, ch.alpha, 0, y),
        p.transcript.initial_sumcheck@,
        ch.initial_folding,
    );
    lemma_claims_apart(cfg, p, q, ch, 0, verify::last(cfg));
    lemma_one_closes(cfg, p, q, ch);
}

/// Of two proofs that differ in one opened evaluation at most one closes.
pub proof fn law_false_openings_do_not_close(
    cfg: VerifyConfig,
    p: VerifyData,
    q: VerifyData,
    ch: Draws,
    k: int,
    j: int,
)
    requires
        invertible(ch),
        elements(cfg, p, ch),
        elements(cfg, q, ch),
        one_opening(p, q, k, j),
        p.transcript.initial_ood_answers@ == q.transcript.initial_ood_answers@,
        p.transcript.initial_sumcheck@ == q.transcript.initial_sumcheck@,
        forall|l: nat| l < verify::last(cfg) ==> #[trigger] same_round(cfg, p, q, ch, l),
        same_end(p, q),
    ensures
        !(closes(cfg, p, ch) && closes(cfg, q, ch)),
{
    let (a, b) = (p.transcript.openings@, q.transcript.openings@);
    lemma_changed(p, q, k, j, a.len());
    let at = verify::flat(a, k as nat).len() + j;
    let (x, y) = (verify::initial_evals(p.transcript), verify::initial_evals(q.transcript));
    let (f, g) = (verify::flat(a, a.len()), verify::flat(b, b.len()));
    assert(x[at] == f[at] && y[at] == g[at]);
    assert forall|i: int| 0 <= i < x.len() && i != at implies #[trigger] x[i] == y[i] by {
        if i < f.len() {
            assert(x[i] == f[i] && y[i] == g[i]);
        }
    }
    lemma_start_counts(cfg, p, q, ch, at);
}

/// Of two proofs that differ in one out-of-domain answer of the commitment at most
/// one closes.
pub proof fn law_false_answers_do_not_close(
    cfg: VerifyConfig,
    p: VerifyData,
    q: VerifyData,
    ch: Draws,
    j: int,
)
    requires
        invertible(ch),
        elements(cfg, p, ch),
        elements(cfg, q, ch),
        p.transcript.openings@ == q.transcript.openings@,
        p.transcript.initial_ood_answers@.len() == q.transcript.initial_ood_answers@.len(),
        0 <= j < p.transcript.initial_ood_answers@.len(),
        ext4::quad(p.transcript.initial_ood_answers@[j]@) != ext4::quad(
            q.transcript.initial_ood_answers@[j]@,
        ),
        forall|i: int|
            0 <= i < p.transcript.initial_ood_answers@.len() && i != j
                ==> #[trigger] p.transcript.initial_ood_answers@[i]
                == q.transcript.initial_ood_answers@[i],
        p.transcript.initial_sumcheck@ == q.transcript.initial_sumcheck@,
        forall|l: nat| l < verify::last(cfg) ==> #[trigger] same_round(cfg, p, q, ch, l),
        same_end(p, q),
    ensures
        !(closes(cfg, p, ch) && closes(cfg, q, ch)),
{
    let f = verify::flat(p.transcript.openings@, p.transcript.openings@.len());
    let at = f.len() + j;
    let (u, v) = (p.transcript.initial_ood_answers@, q.transcript.initial_ood_answers@);
    let (x, y) = (verify::initial_evals(p.transcript), verify::initial_evals(q.transcript));
    assert(x[at] == ext4::quad(u[j]@) && y[at] == ext4::quad(v[j]@));
    assert forall|i: int| 0 <= i < x.len() && i != at implies #[trigger] x[i] == y[i] by {
        if i >= f.len() {
            assert(u[i - f.len()] == v[i - f.len()]);
            assert(x[i] == ext4::quad(u[i - f.len()]@) && y[i] == ext4::quad(v[i - f.len()]@));
        } else {
            assert(x[i] == f[i] && y[i] == f[i]);
        }
    }
    lemma_start_counts(cfg, p, q, ch, at);
}

/// Of two proofs that differ in one value of one round at most one closes: one of its
/// out-of-domain answers, or the value that one of its rows folds to.
pub proof fn law_false_rounds_do_not_close(
    cfg: VerifyConfig,
    p: VerifyData,
    q: VerifyData,
    ch: Draws,
    i: nat,
    j: int,
)
    requires
        invertible(ch),
        elements(cfg, p, ch),
        elements(cfg, q, ch),
        i < verify::last(cfg),
        p.transcript.openings@ == q.transcript.openings@,
        p.transcript.initial_ood_answers@ == q.transcript.initial_ood_answers@,
        p.transcript.initial_sumcheck@ == q.transcript.initial_sumcheck@,
        forall|l: nat|
            l < verify::last(cfg) && l != i ==> #[trigger] same_round(cfg, p, q, ch, l),
        p.transcript.rounds@[i as int].sumcheck@ == q.transcript.rounds@[i as int].sumcheck@,
        one_value(round_values(cfg, p, ch, i), round_values(cfg, q, ch, i), j),
        same_end(p, q),
    ensures
        !(closes(cfg, p, ch) && closes(cfg, q, ch)),
{
    let (x, y) = (round_values(cfg, p, ch, i), round_values(cfg, q, ch, i));
    assert(round_ok(cfg, p, ch, i) && round_ok(cfg, q, ch, i));
    let rch = ch.rounds[i as int];
    lemma_join(
        ext4::quads(p.transcript.rounds@[i as int].ood_answers@),
        verify::folds(verify::opening(cfg, p, i), verify::folding_before(ch, i)),
    );
    lemma_join(
        ext4::quads(q.transcript.rounds@[i as int].ood_answers@),
        verify::folds(verify::opening(cfg, q, i), verify::folding_before(ch, i)),
    );
    assert(x == verify::round_evals(cfg, p, ch, i));
    assert(y == verify::round_evals(cfg, q, ch, i));
    lemma_same_until(cfg, p, q, ch, i);
    lemma_canonical(cfg, p, ch, i);
    let c = verify::claim_at(cfg, p, ch, i);
    lemma_weighted_apart(c, c, rch.combination, 1, x, y, j);
    lemma_reduced_apart(
        model::weighted(c, rch.combination, 1, x),
        model::weighted(c, rch.combination, 1, y),
        p.transcript.rounds@[i as int].sumcheck@,
        rch.folding,
    );
    lemma_claims_apart(cfg, p, q, ch, i + 1, verify::last(cfg));
    lemma_one_closes(cfg, p, q, ch);
}

/// The values claimed in round `i`: each answer, then the value at the folding
/// randomness of each row opened.
pub open spec fn round_values(cfg: VerifyConfig, p: VerifyData, ch: Draws, i: nat) -> Seq<Quad> {
    let answers = p.transcript.rounds@[i as int].ood_answers@;
    let o = verify::opening(cfg, p, i);
    Seq::new(answers.len(), |j: int| ext4::quad(answers[j]@)) + Seq::new(
        o.rows@.len(),
        |q: int|
            model::multilinear(
                verify::row_elems(o.extension, o.rows@[q]@),
                verify::folding_before(ch, i),
            ),
    )
}

/// Two lists differ at `j` and nowhere else.
pub open spec fn one_value(x: Seq<Quad>, y: Seq<Quad>, j: int) -> bool {
    &&& x.len() == y.len()
    &&& 0 <= j < x.len()
    &&& x[j] != y[j]
    &&& forall|k: int| 0 <= k < x.len() && k != j ==> #[trigger] x[k] == y[k]
}

proof fn lemma_same_until(cfg: VerifyConfig, p: VerifyData, q: VerifyData, ch: Draws, n: nat)
    requires
        p.transcript.openings@ == q.transcript.openings@,
        p.transcript.initial_ood_answers@ == q.transcript.initial_ood_answers@,
        p.transcript.initial_sumcheck@ == q.transcript.initial_sumcheck@,
        forall|l: nat| l < n ==> #[trigger] same_round(cfg, p, q, ch, l),
    ensures
        verify::claim_at(cfg, p, ch, n) == verify::claim_at(cfg, q, ch, n),
    decreases n,
{
    if n > 0 {
        lemma_same_until(cfg, p, q, ch, (n - 1) as nat);
        assert(same_round(cfg, p, q, ch, (n - 1) as nat));
    }
}

} // verus!

//! A proof that closes does not close with another value in one of its claims: every
//! claimed evaluation, out-of-domain answer and fold reaches the closing identity.
use super::field;
use super::field::Elt;
use super::honest;
use super::honest::Binary;
use super::protocol;
use super::protocol::{Draws, ProofM, RoundM};
use super::reference::Config;
use crate::apart;
use crate::multilinear;
use crate::multilinear::Algebra;
use vstd::prelude::*;

verus! {

/// Units all: the challenges of the batches and of the sumchecks.
pub open spec fn invertible(draws: Draws) -> bool {
    &&& draws.alpha.len() == 128
    &&& apart::unit::<Binary>(draws.alpha)
    &&& apart::units::<Binary>(draws.initial_folding)
    &&& apart::units::<Binary>(draws.final_folding)
    &&& forall|i: int|
        0 <= i < draws.rounds.len() ==> {
            &&& (#[trigger] draws.rounds[i]).combination.len() == 128
            &&& apart::unit::<Binary>(draws.rounds[i].combination)
            &&& apart::units::<Binary>(draws.rounds[i].folding)
        }
}

/// Elements all, and no more sumcheck messages than challenges.
pub open spec fn round_elements(rd: RoundM, draws: Draws, i: nat) -> bool {
    &&& multilinear::point::<Binary>(rd.ood_answers)
    &&& multilinear::point::<Binary>(
        protocol::folds(rd.rows, protocol::reversed(protocol::folding_before(draws, i))),
    )
    &&& apart::pairs::<Binary>(honest::messages(rd.sumcheck))
    &&& rd.sumcheck.len() <= draws.rounds[i as int].folding.len()
}

/// Elements all, and no more sumcheck messages than challenges.
pub open spec fn elements(p: ProofM, draws: Draws) -> bool {
    &&& forall|k: int|
        0 <= k < p.openings.len() ==> multilinear::point::<Binary>(#[trigger] p.openings[k])
    &&& multilinear::point::<Binary>(p.initial_ood_answers)
    &&& apart::pairs::<Binary>(honest::messages(p.initial_sumcheck))
    &&& p.initial_sumcheck.len() <= draws.initial_folding.len()
    &&& apart::pairs::<Binary>(honest::messages(p.final_sumcheck))
    &&& p.final_sumcheck.len() <= draws.final_folding.len()
    &&& p.rounds.len() == draws.rounds.len()
    &&& forall|i: nat|
        i < p.rounds.len() ==> #[trigger] round_elements(p.rounds[i as int], draws, i)
}

// ---------------------------------------------------------------------------
// The steps.
// ---------------------------------------------------------------------------

proof fn lemma_power(x: Elt, e: nat)
    requires
        x.len() == 128,
    ensures
        field::power(x, e) == apart::power::<Binary>(x, e),
    decreases e,
{
    if e > 0 {
        lemma_power(x, (e - 1) as nat);
    }
}

proof fn lemma_batched(c: Elt, chi: Elt, shift: nat, evals: Seq<Elt>)
    requires
        chi.len() == 128,
    ensures
        protocol::combine(c, chi, shift, evals) == apart::batched::<Binary>(c, chi, shift, evals),
    decreases evals.len(),
{
    if evals.len() > 0 {
        lemma_batched(c, chi, shift, evals.drop_last());
        lemma_power(chi, (shift + evals.len() - 1) as nat);
    }
}

/// Two batches that differ in their base alone, or in one value alone.
proof fn lemma_combine_apart(
    b: Elt,
    c: Elt,
    chi: Elt,
    shift: nat,
    x: Seq<Elt>,
    y: Seq<Elt>,
    j: int,
)
    requires
        b.len() == 128,
        c.len() == 128,
        chi.len() == 128,
        apart::unit::<Binary>(chi),
        multilinear::point::<Binary>(x),
        multilinear::point::<Binary>(y),
        x.len() == y.len(),
        forall|k: int| 0 <= k < x.len() && k != j ==> #[trigger] x[k] == y[k],
    ensures
        protocol::combine(b, chi, shift, x).len() == 128,
        protocol::combine(c, chi, shift, y).len() == 128,
        b != c && !(0 <= j < x.len()) ==> protocol::combine(b, chi, shift, x)
            != protocol::combine(c, chi, shift, y),
        b == c && 0 <= j < x.len() && x[j] != y[j] ==> protocol::combine(b, chi, shift, x)
            != protocol::combine(c, chi, shift, y),
        b == c && !(0 <= j < x.len()) ==> protocol::combine(b, chi, shift, x)
            == protocol::combine(c, chi, shift, y),
{
    lemma_batched(b, chi, shift, x);
    lemma_batched(c, chi, shift, y);
    apart::lemma_batched_apart::<Binary>(b, c, chi, shift, x, y, j);
    assert(Binary::has(apart::batched::<Binary>(b, chi, shift, x)));
    assert(Binary::has(apart::batched::<Binary>(c, chi, shift, y)));
}

proof fn lemma_sumcheck_apart(
    c: Elt,
    d: Elt,
    rounds: Seq<protocol::SumcheckM>,
    folding: Seq<Elt>,
)
    requires
        c.len() == 128,
        d.len() == 128,
        apart::pairs::<Binary>(honest::messages(rounds)),
        apart::units::<Binary>(folding),
        rounds.len() <= folding.len(),
    ensures
        protocol::sumcheck_claim(c, rounds, folding).len() == 128,
        protocol::sumcheck_claim(d, rounds, folding).len() == 128,
        c != d ==> protocol::sumcheck_claim(c, rounds, folding) != protocol::sumcheck_claim(
            d,
            rounds,
            folding,
        ),
{
    let ms = honest::messages(rounds);
    let n = rounds.len();
    honest::lemma_sumcheck_claim(c, rounds, folding, n);
    honest::lemma_sumcheck_claim(d, rounds, folding, n);
    assert(rounds.take(n as int) =~= rounds);
    apart::lemma_through_apart::<Binary>(c, d, ms, folding, n);
    assert(Binary::has(multilinear::claim_through::<Binary>(c, ms, folding, n)));
    assert(Binary::has(multilinear::claim_through::<Binary>(d, ms, folding, n)));
}

/// The claim after a round from the claim before it.
spec fn round_claim(before: Elt, rd: RoundM, draws: Draws, i: nat) -> Elt {
    let rch = draws.rounds[i as int];
    protocol::sumcheck_claim(
        protocol::combine(
            protocol::combine(before, rch.combination, 1, rd.ood_answers),
            rch.combination,
            1 + rd.ood_answers.len(),
            protocol::folds(rd.rows, protocol::reversed(protocol::folding_before(draws, i))),
        ),
        rd.sumcheck,
        rch.folding,
    )
}

proof fn lemma_round_claim_apart(c: Elt, d: Elt, rd: RoundM, draws: Draws, i: nat)
    requires
        c.len() == 128,
        d.len() == 128,
        invertible(draws),
        i < draws.rounds.len(),
        round_elements(rd, draws, i),
    ensures
        round_claim(c, rd, draws, i).len() == 128,
        round_claim(d, rd, draws, i).len() == 128,
        c != d ==> round_claim(c, rd, draws, i) != round_claim(d, rd, draws, i),
{
    let rch = draws.rounds[i as int];
    let chi = rch.combination;
    let xs = rd.ood_answers;
    let ys = protocol::folds(rd.rows, protocol::reversed(protocol::folding_before(draws, i)));
    lemma_combine_apart(c, d, chi, 1, xs, xs, -1);
    let (c1, d1) = (protocol::combine(c, chi, 1, xs), protocol::combine(d, chi, 1, xs));
    lemma_combine_apart(c1, d1, chi, 1 + xs.len(), ys, ys, -1);
    lemma_sumcheck_apart(
        protocol::combine(c1, chi, 1 + xs.len(), ys),
        protocol::combine(d1, chi, 1 + xs.len(), ys),
        rd.sumcheck,
        rch.folding,
    );
}

proof fn lemma_start_len(cfg: Config, p: ProofM, draws: Draws)
    requires
        invertible(draws),
        elements(p, draws),
    ensures
        protocol::claim_after(cfg, p, draws, 0).len() == 128,
        protocol::initial_claim(cfg, p, draws).len() == 128,
        multilinear::point::<Binary>(
            protocol::claims_evals(p, protocol::claim_count(cfg, p)) + p.initial_ood_answers,
        ),
{
    let n = protocol::claim_count(cfg, p);
    lemma_evals(p, n);
    let xs = protocol::claims_evals(p, n) + p.initial_ood_answers;
    assert forall|i: int| 0 <= i < xs.len() implies Binary::has(#[trigger] xs[i]) by {
        let m = protocol::claims_evals(p, n).len();
        if i >= m {
            assert(Binary::has(p.initial_ood_answers[i - m]));
        } else {
            assert(Binary::has(protocol::claims_evals(p, n)[i]));
        }
    }
    let z = field::zero128();
    lemma_combine_apart(z, z, draws.alpha, 0, xs, xs, -1);
    let c = protocol::initial_claim(cfg, p, draws);
    lemma_sumcheck_apart(c, c, p.initial_sumcheck, draws.initial_folding);
}

proof fn lemma_evals(p: ProofM, n: nat)
    requires
        n <= p.openings.len(),
        forall|k: int|
            0 <= k < p.openings.len() ==> multilinear::point::<Binary>(#[trigger] p.openings[k]),
    ensures
        multilinear::point::<Binary>(protocol::claims_evals(p, n)),
    decreases n,
{
    if n > 0 {
        lemma_evals(p, (n - 1) as nat);
        let (a, b) = (protocol::claims_evals(p, (n - 1) as nat), p.openings[n - 1]);
        assert forall|i: int| 0 <= i < (a + b).len() implies Binary::has(#[trigger] (a + b)[i]) by {
            if i < a.len() {
                assert(Binary::has(a[i]));
            } else {
                assert(Binary::has(b[i - a.len()]));
            }
        }
    }
}

proof fn lemma_claim_len(cfg: Config, p: ProofM, draws: Draws, n: nat)
    requires
        invertible(draws),
        elements(p, draws),
        n <= p.rounds.len(),
    ensures
        protocol::claim_after(cfg, p, draws, n).len() == 128,
    decreases n,
{
    if n == 0 {
        lemma_start_len(cfg, p, draws);
    } else {
        let i = (n - 1) as nat;
        lemma_claim_len(cfg, p, draws, i);
        assert(round_elements(p.rounds[i as int], draws, i));
        let c = protocol::claim_after(cfg, p, draws, i);
        lemma_round_claim_apart(c, c, p.rounds[i as int], draws, i);
        assert(protocol::claim_after(cfg, p, draws, n) == round_claim(
            c,
            p.rounds[i as int],
            draws,
            i,
        ));
    }
}

/// Claims that differ after `i` rounds, with the same rounds to come, differ at the
/// end.
proof fn lemma_end_apart(cfg: Config, p: ProofM, q: ProofM, draws: Draws, i: nat, n: nat)
    requires
        invertible(draws),
        elements(p, draws),
        elements(q, draws),
        i <= n <= p.rounds.len(),
        p.rounds.len() == q.rounds.len(),
        forall|k: int| i <= k < n ==> #[trigger] p.rounds[k] == q.rounds[k],
        protocol::claim_after(cfg, p, draws, i) != protocol::claim_after(cfg, q, draws, i),
    ensures
        protocol::claim_after(cfg, p, draws, n) != protocol::claim_after(cfg, q, draws, n),
    decreases n,
{
    if i < n {
        let k = (n - 1) as nat;
        lemma_end_apart(cfg, p, q, draws, i, k);
        lemma_claim_len(cfg, p, draws, k);
        lemma_claim_len(cfg, q, draws, k);
        let rd = p.rounds[k as int];
        assert(q.rounds[k as int] == rd);
        assert(round_elements(rd, draws, k));
        let (c, d) = (
            protocol::claim_after(cfg, p, draws, k),
            protocol::claim_after(cfg, q, draws, k),
        );
        lemma_round_claim_apart(c, d, rd, draws, k);
        assert(protocol::claim_after(cfg, p, draws, n) == round_claim(c, rd, draws, k));
        assert(protocol::claim_after(cfg, q, draws, n) == round_claim(d, rd, draws, k));
    }
}

proof fn lemma_same_start(cfg: Config, p: ProofM, q: ProofM, draws: Draws, n: nat)
    requires
        protocol::initial_claim(cfg, p, draws) == protocol::initial_claim(cfg, q, draws),
        p.initial_sumcheck == q.initial_sumcheck,
        forall|k: int| 0 <= k < n ==> #[trigger] p.rounds[k] == q.rounds[k],
    ensures
        protocol::claim_after(cfg, p, draws, n) == protocol::claim_after(cfg, q, draws, n),
    decreases n,
{
    if n > 0 {
        lemma_same_start(cfg, p, q, draws, (n - 1) as nat);
        assert(p.rounds[n - 1] == q.rounds[n - 1]);
    }
}

proof fn lemma_same_evals(p: ProofM, q: ProofM, n: nat)
    requires
        p.openings == q.openings,
    ensures
        protocol::claims_evals(p, n) == protocol::claims_evals(q, n),
    decreases n,
{
    if n > 0 {
        lemma_same_evals(p, q, (n - 1) as nat);
    }
}

proof fn lemma_same_weights(
    cfg: Config,
    p: ProofM,
    q: ProofM,
    draws: Draws,
    given: Seq<Seq<Elt>>,
    rev: Seq<Elt>,
    n: nat,
)
    requires
        p.openings.len() == q.openings.len(),
    ensures
        protocol::weights(cfg, p, draws, given, rev, n) == protocol::weights(
            cfg,
            q,
            draws,
            given,
            rev,
            n,
        ),
    decreases n,
{
    if n > 0 {
        lemma_same_weights(cfg, p, q, draws, given, rev, (n - 1) as nat);
    } else {
        assert(protocol::initial_constraint(cfg, p, draws, given)
            == protocol::initial_constraint(cfg, q, draws, given));
    }
}

/// Of two proofs with the same end whose claims differ after the rounds, at most one
/// closes.
proof fn lemma_one_closes(
    cfg: Config,
    p: ProofM,
    q: ProofM,
    draws: Draws,
    given: Seq<Seq<Elt>>,
)
    requires
        invertible(draws),
        elements(p, draws),
        elements(q, draws),
        p.openings.len() == q.openings.len(),
        p.final_sumcheck == q.final_sumcheck,
        p.final_poly == q.final_poly,
        protocol::claim_after(cfg, p, draws, draws.rounds.len()) != protocol::claim_after(
            cfg,
            q,
            draws,
            draws.rounds.len(),
        ),
        protocol::closes(cfg, p, draws, given),
    ensures
        !protocol::closes(cfg, q, draws, given),
{
    let n = draws.rounds.len();
    lemma_claim_len(cfg, p, draws, n);
    lemma_claim_len(cfg, q, draws, n);
    lemma_sumcheck_apart(
        protocol::claim_after(cfg, p, draws, n),
        protocol::claim_after(cfg, q, draws, n),
        p.final_sumcheck,
        draws.final_folding,
    );
    lemma_same_weights(cfg, p, q, draws, given, protocol::all_randomness(draws), n);
}

// ---------------------------------------------------------------------------
// The laws.
// ---------------------------------------------------------------------------

/// A proof with value `v` for evaluation `j` of claim `k`.
pub open spec fn with_opening(p: ProofM, k: int, j: int, v: Elt) -> ProofM {
    ProofM { openings: p.openings.update(k, p.openings[k].update(j, v)), ..p }
}

proof fn lemma_changed_evals(p: ProofM, k: int, j: int, v: Elt, n: nat)
    requires
        0 <= k < p.openings.len(),
        0 <= j < p.openings[k].len(),
        n <= p.openings.len(),
    ensures
        n <= k ==> protocol::claims_evals(with_opening(p, k, j, v), n) == protocol::claims_evals(
            p,
            n,
        ),
        n > k ==> {
            let at = protocol::claims_evals(p, k as nat).len() + j;
            &&& at < protocol::claims_evals(p, n).len()
            &&& protocol::claims_evals(p, n)[at] == p.openings[k][j]
            &&& protocol::claims_evals(with_opening(p, k, j, v), n) == protocol::claims_evals(
                p,
                n,
            ).update(at, v)
        },
    decreases n,
{
    if n > 0 {
        let q = with_opening(p, k, j, v);
        let m = (n - 1) as nat;
        lemma_changed_evals(p, k, j, v, m);
        let at = protocol::claims_evals(p, k as nat).len() + j;
        if m < k {
            assert(q.openings[m as int] == p.openings[m as int]);
        } else {
            assert(protocol::claims_evals(q, n) =~= protocol::claims_evals(p, n).update(at, v));
        }
    }
}

/// With another value for an opened evaluation, a proof that closes does not.
pub proof fn law_false_openings_do_not_close(
    cfg: Config,
    p: ProofM,
    draws: Draws,
    given: Seq<Seq<Elt>>,
    k: int,
    j: int,
    v: Elt,
)
    requires
        invertible(draws),
        elements(p, draws),
        0 <= k < p.openings.len(),
        p.openings.len() <= cfg.claims@.len(),
        0 <= j < p.openings[k].len(),
        v.len() == 128,
        v != p.openings[k][j],
        protocol::closes(cfg, p, draws, given),
    ensures
        !protocol::closes(cfg, with_opening(p, k, j, v), draws, given),
{
    let q = with_opening(p, k, j, v);
    assert forall|i: int| 0 <= i < q.openings.len() implies multilinear::point::<Binary>(
        #[trigger] q.openings[i],
    ) by {
        let (old_list, new_list) = (p.openings[i], q.openings[i]);
        assert(multilinear::point::<Binary>(old_list));
        assert forall|l: int| 0 <= l < new_list.len() implies Binary::has(
            #[trigger] new_list[l],
        ) by {
            assert(Binary::has(old_list[l]));
        }
    }
    assert(elements(q, draws));
    lemma_start_len(cfg, p, draws);
    lemma_start_len(cfg, q, draws);
    let n = p.openings.len();
    lemma_changed_evals(p, k, j, v, n);
    let at = protocol::claims_evals(p, k as nat).len() + j;
    let xs = protocol::claims_evals(p, n) + p.initial_ood_answers;
    let ys = protocol::claims_evals(q, n) + q.initial_ood_answers;
    let z = field::zero128();
    lemma_combine_apart(z, z, draws.alpha, 0, xs, ys, at);
    lemma_sumcheck_apart(
        protocol::initial_claim(cfg, p, draws),
        protocol::initial_claim(cfg, q, draws),
        p.initial_sumcheck,
        draws.initial_folding,
    );
    lemma_end_apart(cfg, p, q, draws, 0, draws.rounds.len());
    lemma_one_closes(cfg, p, q, draws, given);
}

/// With another value for an out-of-domain answer of the commitment, a proof that
/// closes does not.
pub proof fn law_false_answers_do_not_close(
    cfg: Config,
    p: ProofM,
    draws: Draws,
    given: Seq<Seq<Elt>>,
    j: int,
    v: Elt,
)
    requires
        invertible(draws),
        elements(p, draws),
        0 <= j < p.initial_ood_answers.len(),
        v.len() == 128,
        v != p.initial_ood_answers[j],
        protocol::closes(cfg, p, draws, given),
    ensures
        !protocol::closes(
            cfg,
            (ProofM { initial_ood_answers: p.initial_ood_answers.update(j, v), ..p }),
            draws,
            given,
        ),
{
    let q = ProofM { initial_ood_answers: p.initial_ood_answers.update(j, v), ..p };
    assert forall|l: int| 0 <= l < q.initial_ood_answers.len() implies Binary::has(
        #[trigger] q.initial_ood_answers[l],
    ) by {
        assert(Binary::has(p.initial_ood_answers[l]));
    }
    assert(elements(q, draws));
    lemma_start_len(cfg, p, draws);
    lemma_start_len(cfg, q, draws);
    let n = protocol::claim_count(cfg, p);
    lemma_same_evals(p, q, n);
    let es = protocol::claims_evals(p, n);
    let (xs, ys) = (es + p.initial_ood_answers, es + q.initial_ood_answers);
    let z = field::zero128();
    lemma_combine_apart(z, z, draws.alpha, 0, xs, ys, es.len() + j);
    lemma_sumcheck_apart(
        protocol::initial_claim(cfg, p, draws),
        protocol::initial_claim(cfg, q, draws),
        p.initial_sumcheck,
        draws.initial_folding,
    );
    lemma_end_apart(cfg, p, q, draws, 0, draws.rounds.len());
    lemma_one_closes(cfg, p, q, draws, given);
}

/// A proof with `rd` for round `i`.
pub open spec fn with_round(p: ProofM, i: nat, rd: RoundM) -> ProofM {
    ProofM { rounds: p.rounds.update(i as int, rd), ..p }
}

proof fn lemma_round_counts(
    cfg: Config,
    p: ProofM,
    draws: Draws,
    given: Seq<Seq<Elt>>,
    i: nat,
    rd: RoundM,
)
    requires
        invertible(draws),
        elements(p, draws),
        i < p.rounds.len(),
        round_elements(rd, draws, i),
        protocol::closes(cfg, p, draws, given),
        protocol::claim_after(cfg, p, draws, i + 1) != round_claim(
            protocol::claim_after(cfg, p, draws, i),
            rd,
            draws,
            i,
        ),
    ensures
        !protocol::closes(cfg, with_round(p, i, rd), draws, given),
{
    let q = with_round(p, i, rd);
    assert forall|l: nat| l < q.rounds.len() implies #[trigger] round_elements(
        q.rounds[l as int],
        draws,
        l,
    ) by {
        assert(round_elements(p.rounds[l as int], draws, l));
    }
    assert(elements(q, draws));
    lemma_same_evals(p, q, protocol::claim_count(cfg, p));
    lemma_same_start(cfg, p, q, draws, i);
    assert(q.rounds[i as int] == rd);
    assert(protocol::claim_after(cfg, q, draws, i + 1) == round_claim(
        protocol::claim_after(cfg, p, draws, i),
        rd,
        draws,
        i,
    ));
    lemma_end_apart(cfg, p, q, draws, i + 1, draws.rounds.len());
    lemma_one_closes(cfg, p, q, draws, given);
}

/// With another value for an out-of-domain answer of a round, a proof that closes
/// does not.
pub proof fn law_false_round_answers_do_not_close(
    cfg: Config,
    p: ProofM,
    draws: Draws,
    given: Seq<Seq<Elt>>,
    i: nat,
    j: int,
    v: Elt,
)
    requires
        invertible(draws),
        elements(p, draws),
        i < p.rounds.len(),
        0 <= j < p.rounds[i as int].ood_answers.len(),
        v.len() == 128,
        v != p.rounds[i as int].ood_answers[j],
        protocol::closes(cfg, p, draws, given),
    ensures
        !protocol::closes(
            cfg,
            with_round(
                p,
                i,
                (RoundM {
                    ood_answers: p.rounds[i as int].ood_answers.update(j, v),
                    ..p.rounds[i as int]
                }),
            ),
            draws,
            given,
        ),
{
    let old_round = p.rounds[i as int];
    let rd = RoundM { ood_answers: old_round.ood_answers.update(j, v), ..old_round };
    assert(round_elements(old_round, draws, i));
    assert forall|l: int| 0 <= l < rd.ood_answers.len() implies Binary::has(
        #[trigger] rd.ood_answers[l],
    ) by {
        assert(Binary::has(old_round.ood_answers[l]));
    }
    let rch = draws.rounds[i as int];
    let chi = rch.combination;
    let before = protocol::claim_after(cfg, p, draws, i);
    lemma_claim_len(cfg, p, draws, i);
    let (xs, ys) = (old_round.ood_answers, rd.ood_answers);
    let fs = protocol::folds(rd.rows, protocol::reversed(protocol::folding_before(draws, i)));
    lemma_combine_apart(before, before, chi, 1, xs, ys, j);
    let (c, d) = (
        protocol::combine(before, chi, 1, xs),
        protocol::combine(before, chi, 1, ys),
    );
    lemma_combine_apart(c, d, chi, 1 + xs.len(), fs, fs, -1);
    lemma_sumcheck_apart(
        protocol::combine(c, chi, 1 + xs.len(), fs),
        protocol::combine(d, chi, 1 + xs.len(), fs),
        rd.sumcheck,
        rch.folding,
    );
    lemma_round_counts(cfg, p, draws, given, i, rd);
}

/// With a row that folds to another value, a proof that closes does not.
pub proof fn law_false_rows_do_not_close(
    cfg: Config,
    p: ProofM,
    draws: Draws,
    given: Seq<Seq<Elt>>,
    i: nat,
    q: int,
    row: Seq<Elt>,
)
    requires
        invertible(draws),
        elements(p, draws),
        i < p.rounds.len(),
        0 <= q < p.rounds[i as int].rows.len(),
        protocol::eval_multilinear(
            row,
            protocol::reversed(protocol::folding_before(draws, i)),
        ).len() == 128,
        protocol::eval_multilinear(row, protocol::reversed(protocol::folding_before(draws, i)))
            != protocol::eval_multilinear(
            p.rounds[i as int].rows[q],
            protocol::reversed(protocol::folding_before(draws, i)),
        ),
        protocol::closes(cfg, p, draws, given),
    ensures
        !protocol::closes(
            cfg,
            with_round(
                p,
                i,
                (RoundM { rows: p.rounds[i as int].rows.update(q, row), ..p.rounds[i as int] }),
            ),
            draws,
            given,
        ),
{
    let old_round = p.rounds[i as int];
    let rd = RoundM { rows: old_round.rows.update(q, row), ..old_round };
    let at = protocol::reversed(protocol::folding_before(draws, i));
    assert(round_elements(old_round, draws, i));
    let (fs, gs) = (protocol::folds(old_round.rows, at), protocol::folds(rd.rows, at));
    assert forall|l: int| 0 <= l < gs.len() implies Binary::has(#[trigger] gs[l]) by {
        assert(Binary::has(fs[l]));
    }
    let rch = draws.rounds[i as int];
    let chi = rch.combination;
    let before = protocol::claim_after(cfg, p, draws, i);
    lemma_claim_len(cfg, p, draws, i);
    let xs = old_round.ood_answers;
    lemma_combine_apart(before, before, chi, 1, xs, xs, -1);
    let c = protocol::combine(before, chi, 1, xs);
    lemma_combine_apart(c, c, chi, 1 + xs.len(), fs, gs, q);
    lemma_sumcheck_apart(
        protocol::combine(c, chi, 1 + xs.len(), fs),
        protocol::combine(c, chi, 1 + xs.len(), gs),
        rd.sumcheck,
        rch.folding,
    );
    lemma_round_counts(cfg, p, draws, given, i, rd);
}

} // verus!

//! What the challenger absorbs over a transcript: every message of the proof and
//! every seed, once and in order.
use super::bytes;
use super::field::Elt;
use super::protocol;
use super::protocol::{Machine, ProofM, RoundM, SumcheckM};
use super::reference::{Config, RoundConfig};
use vstd::arithmetic::power2::pow2;
use vstd::prelude::*;

verus! {

/// What was done with a challenger: bytes absorbed, and, as `None`, bytes drawn.
pub type Log = Seq<Option<u8>>;

/// The challenger that remembers everything done with it, and whose draws are any
/// function of that.
pub open spec fn recorder(g: spec_fn(Log) -> u8) -> Machine<Log> {
    Machine {
        absorb: |s: Log, b: u8| s.push(Some(b)),
        draw: |s: Log| (s.push(None), g(s)),
    }
}

/// The bytes absorbed.
pub open spec fn absorbed(log: Log) -> Seq<u8>
    decreases log.len(),
{
    if log.len() == 0 {
        Seq::empty()
    } else {
        match log.last() {
            Some(b) => absorbed(log.drop_last()).push(b),
            None => absorbed(log.drop_last()),
        }
    }
}

/// The first `n` parts, one after the other.
pub open spec fn joined(parts: spec_fn(int) -> Seq<u8>, n: nat) -> Seq<u8>
    decreases n,
{
    if n == 0 {
        Seq::empty()
    } else {
        joined(parts, (n - 1) as nat) + parts(n - 1)
    }
}

/// An element's bytes.
pub open spec fn elt_stream(x: Elt) -> Seq<u8> {
    bytes::bytes_of_bits(x)
}

/// A list of elements.
pub open spec fn elts_stream(xs: Seq<Elt>) -> Seq<u8> {
    joined(|k: int| elt_stream(xs[k]), xs.len())
}

/// A witness, absorbed where there is work to show.
pub open spec fn witness_stream(bits: nat, witness: Elt) -> Seq<u8> {
    if bits == 0 {
        Seq::empty()
    } else {
        elt_stream(witness)
    }
}

/// A sumcheck: per round the two coefficients and the witness.
pub open spec fn sumcheck_stream(rs: Seq<SumcheckM>, bits: nat) -> Seq<u8> {
    joined(
        |k: int|
            elt_stream(rs[k].c0) + elt_stream(rs[k].c_inf) + witness_stream(bits, rs[k].witness),
        rs.len(),
    )
}

/// An intermediate round: the cap, the answers, the witness, and the sumcheck
/// behind its seed.
#[verifier::opaque]
pub open spec fn round_stream(rc: RoundConfig, rd: RoundM) -> Seq<u8> {
    rd.cap + elts_stream(rd.ood_answers) + witness_stream(rc.pow_bits as nat, rd.pow_witness)
        + rd.seed_sumcheck + sumcheck_stream(rd.sumcheck, rc.folding_pow_bits as nat)
}

/// The samples and the claims, each behind its own seed.
#[verifier::opaque]
pub open spec fn opening_stream(p: ProofM) -> Seq<u8> {
    joined(
        |k: int| p.seed_virtual[k] + elt_stream(p.initial_ood_answers[k]),
        p.initial_ood_answers.len(),
    ) + joined(|k: int| p.seed_claim[k] + elts_stream(p.openings[k]), p.openings.len())
        + p.seed_whir_batching + p.seed_initial_sumcheck
}

/// The end: the final polynomial, the witness, and the sumcheck behind its seed.
#[verifier::opaque]
pub open spec fn final_stream(cfg: Config, p: ProofM) -> Seq<u8> {
    elts_stream(p.final_poly) + witness_stream(cfg.final_pow_bits as nat, p.final_pow_witness)
        + p.seed_final_sumcheck + sumcheck_stream(
        p.final_sumcheck,
        cfg.final_folding_pow_bits as nat,
    )
}

/// The transcript after the commitment.
pub open spec fn stream(cfg: Config, p: ProofM) -> Seq<u8> {
    opening_stream(p) + sumcheck_stream(p.initial_sumcheck, cfg.initial_folding_pow_bits as nat)
        + joined(|i: int| round_stream(cfg.rounds@[i], p.rounds[i]), p.rounds.len())
        + final_stream(cfg, p)
}

// ---------------------------------------------------------------------------
// The steps.
// ---------------------------------------------------------------------------

pub proof fn lemma_steps(s: Log, b: u8)
    ensures
        absorbed(s.push(Some(b))) == absorbed(s).push(b),
        absorbed(s.push(None)) == absorbed(s),
{
    assert(s.push(Some(b)).drop_last() =~= s);
    assert(s.push(None).drop_last() =~= s);
}

pub proof fn lemma_all(g: spec_fn(Log) -> u8, s: Log, bs: Seq<u8>)
    ensures
        absorbed(protocol::absorb_all(recorder(g), s, bs)) == absorbed(s) + bs,
    decreases bs.len(),
{
    if bs.len() == 0 {
        assert(absorbed(s) + bs =~= absorbed(s));
    } else {
        lemma_all(g, s, bs.drop_last());
        lemma_steps(protocol::absorb_all(recorder(g), s, bs.drop_last()), bs.last());
        assert((absorbed(s) + bs.drop_last()).push(bs.last()) =~= absorbed(s) + bs);
    }
}

pub proof fn lemma_same_parts(a: spec_fn(int) -> Seq<u8>, b: spec_fn(int) -> Seq<u8>, n: nat)
    requires
        forall|k: int| 0 <= k < n ==> a(k) == #[trigger] b(k),
    ensures
        joined(a, n) == joined(b, n),
    decreases n,
{
    if n > 0 {
        lemma_same_parts(a, b, (n - 1) as nat);
        assert(a(n - 1) == b(n - 1));
    }
}

pub proof fn lemma_elts(g: spec_fn(Log) -> u8, s: Log, xs: Seq<Elt>)
    ensures
        absorbed(protocol::absorb_elts(recorder(g), s, xs)) == absorbed(s) + elts_stream(xs),
    decreases xs.len(),
{
    if xs.len() == 0 {
        assert(absorbed(s) + elts_stream(xs) =~= absorbed(s));
    } else {
        let front = xs.drop_last();
        lemma_elts(g, s, front);
        lemma_all(g, protocol::absorb_elts(recorder(g), s, front), elt_stream(xs.last()));
        lemma_same_parts(|k: int| elt_stream(xs[k]), |k: int| elt_stream(front[k]), front.len());
        assert(absorbed(s) + elts_stream(front) + elt_stream(xs.last()) =~= absorbed(s)
            + elts_stream(xs));
    }
}

pub proof fn lemma_draw_all(g: spec_fn(Log) -> u8, s: Log, n: nat)
    ensures
        absorbed(protocol::draw_all(recorder(g), s, n).0) == absorbed(s),
    decreases n,
{
    if n > 0 {
        lemma_draw_all(g, s, (n - 1) as nat);
        lemma_steps(protocol::draw_all(recorder(g), s, (n - 1) as nat).0, 0);
    }
}

pub proof fn lemma_draw_elts(g: spec_fn(Log) -> u8, s: Log, n: nat)
    ensures
        absorbed(protocol::draw_elts(recorder(g), s, n).0) == absorbed(s),
    decreases n,
{
    if n > 0 {
        lemma_draw_elts(g, s, (n - 1) as nat);
        lemma_draw_all(g, protocol::draw_elts(recorder(g), s, (n - 1) as nat).0, 16);
    }
}

pub proof fn lemma_witness(g: spec_fn(Log) -> u8, s: Log, bits: nat, w: Elt)
    ensures
        absorbed(protocol::check_witness(recorder(g), s, bits, w).0) == absorbed(s)
            + witness_stream(bits, w),
{
    if bits == 0 {
        assert(absorbed(s) + witness_stream(bits, w) =~= absorbed(s));
    } else {
        lemma_all(g, s, elt_stream(w));
        lemma_draw_all(g, protocol::absorb_elt(recorder(g), s, w), 8);
    }
}

pub proof fn lemma_strata(g: spec_fn(Log) -> u8, s: Log, width: nat, depth: nat, k: nat)
    ensures
        absorbed(protocol::strata(recorder(g), s, width, depth, k).0) == absorbed(s),
    decreases k,
{
    if k > 0 {
        lemma_strata(g, s, width, depth, (k - 1) as nat);
        lemma_draw_all(g, protocol::strata(recorder(g), s, width, depth, (k - 1) as nat).0, 8);
    }
}

pub proof fn lemma_partitions(g: spec_fn(Log) -> u8, s: Log, width: nat, depths: Seq<nat>)
    ensures
        absorbed(protocol::partitions(recorder(g), s, width, depths).0) == absorbed(s),
    decreases depths.len(),
{
    if depths.len() > 0 {
        lemma_partitions(g, s, width, depths.drop_last());
        let e = protocol::partitions(recorder(g), s, width, depths.drop_last()).0;
        lemma_strata(g, e, width, depths.last(), pow2(depths.last()));
    }
}

pub proof fn lemma_queries(g: spec_fn(Log) -> u8, s: Log, width: nat, queries: nat)
    ensures
        absorbed(protocol::stir_queries(recorder(g), s, width, queries).0) == absorbed(s),
{
    let draws = protocol::query_draws(width, queries);
    lemma_partitions(g, s, width, protocol::summand_depths(draws));
}

pub proof fn lemma_sumcheck(g: spec_fn(Log) -> u8, s: Log, rs: Seq<SumcheckM>, bits: nat)
    ensures
        absorbed(protocol::sumcheck_draws(recorder(g), s, rs, bits).0) == absorbed(s)
            + sumcheck_stream(rs, bits),
    decreases rs.len(),
{
    let m = recorder(g);
    let parts = |k: int|
        elt_stream(rs[k].c0) + elt_stream(rs[k].c_inf) + witness_stream(bits, rs[k].witness);
    if rs.len() == 0 {
        assert(absorbed(s) + joined(parts, 0) =~= absorbed(s));
    } else {
        let front = rs.drop_last();
        lemma_sumcheck(g, s, front, bits);
        lemma_same_parts(
            parts,
            |k: int|
                elt_stream(front[k].c0) + elt_stream(front[k].c_inf) + witness_stream(
                    bits,
                    front[k].witness,
                ),
            front.len(),
        );
        let e = protocol::sumcheck_draws(m, s, front, bits).0;
        let r = rs.last();
        lemma_all(g, e, elt_stream(r.c0));
        let f = protocol::absorb_elt(m, e, r.c0);
        lemma_all(g, f, elt_stream(r.c_inf));
        let h = protocol::absorb_elt(m, f, r.c_inf);
        lemma_witness(g, h, bits, r.witness);
        lemma_draw_all(g, protocol::check_witness(m, h, bits, r.witness).0, 16);
        assert(absorbed(e) + elt_stream(r.c0) + elt_stream(r.c_inf) + witness_stream(
            bits,
            r.witness,
        ) =~= absorbed(s) + sumcheck_stream(rs, bits));
    }
}

pub proof fn lemma_virtual(
    g: spec_fn(Log) -> u8,
    s: Log,
    answers: Seq<Elt>,
    seeds: Seq<Seq<u8>>,
)
    ensures
        absorbed(protocol::virtual_draws(recorder(g), s, answers, seeds).0) == absorbed(s)
            + joined(|k: int| seeds[k] + elt_stream(answers[k]), answers.len()),
    decreases answers.len(),
{
    let m = recorder(g);
    let parts = |k: int| seeds[k] + elt_stream(answers[k]);
    if answers.len() == 0 {
        assert(absorbed(s) + joined(parts, 0) =~= absorbed(s));
    } else {
        let front = answers.drop_last();
        let k = (answers.len() - 1) as int;
        lemma_virtual(g, s, front, seeds);
        lemma_same_parts(parts, |k: int| seeds[k] + elt_stream(front[k]), front.len());
        let e = protocol::virtual_draws(m, s, front, seeds).0;
        lemma_all(g, e, seeds[k]);
        let f = protocol::absorb_all(m, e, seeds[k]);
        lemma_draw_all(g, f, 16);
        lemma_all(g, protocol::draw_elt(m, f).0, elt_stream(answers[k]));
        assert(absorbed(e) + seeds[k] + elt_stream(answers[k]) =~= absorbed(s) + joined(
            parts,
            answers.len(),
        ));
    }
}

pub proof fn lemma_claims(
    g: spec_fn(Log) -> u8,
    s: Log,
    openings: Seq<Seq<Elt>>,
    seeds: Seq<Seq<u8>>,
    given: bool,
)
    ensures
        absorbed(protocol::claim_draws(recorder(g), s, openings, seeds, given).0) == absorbed(s)
            + joined(|k: int| seeds[k] + elts_stream(openings[k]), openings.len()),
    decreases openings.len(),
{
    let m = recorder(g);
    let parts = |k: int| seeds[k] + elts_stream(openings[k]);
    if openings.len() == 0 {
        assert(absorbed(s) + joined(parts, 0) =~= absorbed(s));
    } else {
        let front = openings.drop_last();
        let k = (openings.len() - 1) as int;
        lemma_claims(g, s, front, seeds, given);
        lemma_same_parts(parts, |k: int| seeds[k] + elts_stream(front[k]), front.len());
        let e = protocol::claim_draws(m, s, front, seeds, given).0;
        lemma_all(g, e, seeds[k]);
        let f = protocol::absorb_all(m, e, seeds[k]);
        lemma_draw_all(g, f, 16);
        lemma_elts(g, f, openings[k]);
        lemma_elts(g, protocol::draw_elt(m, f).0, openings[k]);
        assert(absorbed(e) + seeds[k] + elts_stream(openings[k]) =~= absorbed(s) + joined(
            parts,
            openings.len(),
        ));
    }
}

pub proof fn lemma_ood(g: spec_fn(Log) -> u8, s: Log, answers: Seq<Elt>)
    ensures
        absorbed(protocol::ood_draws(recorder(g), s, answers).0) == absorbed(s) + elts_stream(
            answers,
        ),
    decreases answers.len(),
{
    let m = recorder(g);
    if answers.len() == 0 {
        assert(absorbed(s) + elts_stream(answers) =~= absorbed(s));
    } else {
        let front = answers.drop_last();
        lemma_ood(g, s, front);
        lemma_same_parts(
            |k: int| elt_stream(answers[k]),
            |k: int| elt_stream(front[k]),
            front.len(),
        );
        let e = protocol::ood_draws(m, s, front).0;
        lemma_draw_all(g, e, 16);
        lemma_all(g, protocol::draw_elt(m, e).0, elt_stream(answers.last()));
        assert(absorbed(e) + elt_stream(answers.last()) =~= absorbed(s) + elts_stream(answers));
    }
}

pub proof fn lemma_round(g: spec_fn(Log) -> u8, s: Log, rc: RoundConfig, rd: RoundM)
    ensures
        absorbed(protocol::round_draws(recorder(g), s, rc, rd).0) == absorbed(s) + round_stream(
            rc,
            rd,
        ),
{
    reveal(round_stream);
    let m = recorder(g);
    lemma_all(g, s, rd.cap);
    let s0 = protocol::absorb_all(m, s, rd.cap);
    lemma_ood(g, s0, rd.ood_answers);
    let s1 = protocol::ood_draws(m, s0, rd.ood_answers).0;
    lemma_witness(g, s1, rc.pow_bits as nat, rd.pow_witness);
    let s2 = protocol::check_witness(m, s1, rc.pow_bits as nat, rd.pow_witness).0;
    lemma_queries(g, s2, rc.index_width as nat, rc.num_queries as nat);
    let s3 = protocol::stir_queries(m, s2, rc.index_width as nat, rc.num_queries as nat).0;
    lemma_draw_all(g, s3, 16);
    let s4 = protocol::draw_elt(m, s3).0;
    lemma_all(g, s4, rd.seed_sumcheck);
    let s5 = protocol::absorb_all(m, s4, rd.seed_sumcheck);
    lemma_sumcheck(g, s5, rd.sumcheck, rc.folding_pow_bits as nat);
    let e = protocol::sumcheck_draws(m, s5, rd.sumcheck, rc.folding_pow_bits as nat).0;
    assert(absorbed(e) =~= absorbed(s) + round_stream(rc, rd));
}

pub proof fn lemma_rounds(
    g: spec_fn(Log) -> u8,
    s: Log,
    cfgs: Seq<RoundConfig>,
    rounds: Seq<RoundM>,
)
    ensures
        absorbed(protocol::rounds_draws(recorder(g), s, cfgs, rounds).0) == absorbed(s) + joined(
            |i: int| round_stream(cfgs[i], rounds[i]),
            rounds.len(),
        ),
    decreases rounds.len(),
{
    let m = recorder(g);
    let parts = |i: int| round_stream(cfgs[i], rounds[i]);
    if rounds.len() == 0 {
        assert(absorbed(s) + joined(parts, 0) =~= absorbed(s));
    } else {
        let front = rounds.drop_last();
        let k = (rounds.len() - 1) as int;
        lemma_rounds(g, s, cfgs, front);
        lemma_same_parts(parts, |i: int| round_stream(cfgs[i], front[i]), front.len());
        let e = protocol::rounds_draws(m, s, cfgs, front).0;
        lemma_round(g, e, cfgs[k], rounds[k]);
        assert(absorbed(e) + parts(k) =~= absorbed(s) + joined(parts, rounds.len()));
    }
}

pub proof fn lemma_final(g: spec_fn(Log) -> u8, s: Log, cfg: Config, p: ProofM)
    ensures
        absorbed(protocol::final_draws(recorder(g), s, cfg, p).0) == absorbed(s) + final_stream(
            cfg,
            p,
        ),
{
    reveal(final_stream);
    let m = recorder(g);
    let bits = cfg.final_pow_bits as nat;
    let (width, queries) = (cfg.final_index_width as nat, cfg.final_queries as nat);
    lemma_elts(g, s, p.final_poly);
    let s0 = protocol::absorb_elts(m, s, p.final_poly);
    lemma_witness(g, s0, bits, p.final_pow_witness);
    let s1 = protocol::check_witness(m, s0, bits, p.final_pow_witness).0;
    lemma_queries(g, s1, width, queries);
    let s2 = protocol::stir_queries(m, s1, width, queries).0;
    lemma_all(g, s2, p.seed_final_sumcheck);
    let s3 = protocol::absorb_all(m, s2, p.seed_final_sumcheck);
    lemma_sumcheck(g, s3, p.final_sumcheck, cfg.final_folding_pow_bits as nat);
    let e = protocol::sumcheck_draws(
        m,
        s3,
        p.final_sumcheck,
        cfg.final_folding_pow_bits as nat,
    ).0;
    assert(absorbed(e) =~= absorbed(s) + final_stream(cfg, p));
}

/// After the commitment, whatever is drawn, the challenger absorbs every seed and
/// every message of the proof, each sample's, claim's and round's own, once and in
/// the order in which they are sent, and nothing else.
pub proof fn law_every_message_is_absorbed(
    g: spec_fn(Log) -> u8,
    s: Log,
    cfg: Config,
    p: ProofM,
)
    ensures
        absorbed(protocol::transcript(recorder(g), s, cfg, p).0) == absorbed(s) + stream(cfg, p),
{
    let m = recorder(g);
    let given = cfg.given_points;
    lemma_virtual(g, s, p.initial_ood_answers, p.seed_virtual);
    let s1 = protocol::virtual_draws(m, s, p.initial_ood_answers, p.seed_virtual).0;
    lemma_claims(g, s1, p.openings, p.seed_claim, given);
    let s2 = protocol::claim_draws(m, s1, p.openings, p.seed_claim, given).0;
    lemma_all(g, s2, p.seed_whir_batching);
    let t2 = protocol::absorb_all(m, s2, p.seed_whir_batching);
    lemma_draw_all(g, t2, 16);
    let s3 = protocol::draw_elt(m, t2).0;
    lemma_all(g, s3, p.seed_initial_sumcheck);
    let s4 = protocol::absorb_all(m, s3, p.seed_initial_sumcheck);
    assert(absorbed(s4) =~= absorbed(s) + opening_stream(p)) by {
        reveal(opening_stream);
    }
    let bits = cfg.initial_folding_pow_bits as nat;
    lemma_sumcheck(g, s4, p.initial_sumcheck, bits);
    let s5 = protocol::sumcheck_draws(m, s4, p.initial_sumcheck, bits).0;
    lemma_rounds(g, s5, cfg.rounds@, p.rounds);
    let s6 = protocol::rounds_draws(m, s5, cfg.rounds@, p.rounds).0;
    lemma_final(g, s6, cfg, p);
    let s7 = protocol::final_draws(m, s6, cfg, p).0;
    assert(absorbed(s7) =~= absorbed(s) + stream(cfg, p));
}

} // verus!

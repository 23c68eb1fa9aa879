//! What the sponge absorbs over a transcript: every message of the proof and every
//! seed, once and in order.
use super::reference::{
    RoundConfig, RoundData, SumcheckRoundData, TranscriptConfig, TranscriptData,
};
use super::schedule;
use super::schedule::Machine;
use super::sponge;
use vstd::prelude::*;

verus! {

/// What was done with a sponge: elements absorbed, and, as `None`, elements drawn.
pub type Log = Seq<Option<u32>>;

/// The sponge that remembers everything done with it, and whose draws are any
/// function of that.
pub open spec fn recorder(g: spec_fn(Log) -> u32) -> Machine<Log> {
    Machine {
        absorb: |s: Log, v: u32| s.push(Some(v)),
        draw: |s: Log| (s.push(None), g(s)),
    }
}

/// The elements absorbed.
pub open spec fn absorbed(log: Log) -> Seq<u32>
    decreases log.len(),
{
    if log.len() == 0 {
        Seq::empty()
    } else {
        match log.last() {
            Some(v) => absorbed(log.drop_last()).push(v),
            None => absorbed(log.drop_last()),
        }
    }
}

/// The first `n` parts, one after the other.
pub open spec fn joined(parts: spec_fn(int) -> Seq<u32>, n: nat) -> Seq<u32>
    decreases n,
{
    if n == 0 {
        Seq::empty()
    } else {
        joined(parts, (n - 1) as nat) + parts(n - 1)
    }
}

/// A list of extension elements.
pub open spec fn quad_stream(xs: Seq<[u32; 4]>) -> Seq<u32> {
    joined(|k: int| xs[k]@, xs.len())
}

/// A witness, absorbed where there is work to show.
pub open spec fn witness_stream(bits: nat, witness: u32) -> Seq<u32> {
    if bits == 0 {
        Seq::empty()
    } else {
        seq![witness]
    }
}

/// A sumcheck: per round the two coefficients and the witness.
pub open spec fn sumcheck_stream(rs: Seq<SumcheckRoundData>, bits: nat) -> Seq<u32> {
    joined(
        |k: int|
            rs[k].poly@[0]@ + rs[k].poly@[1]@ + witness_stream(bits, rs[k].pow_witness),
        rs.len(),
    )
}

/// An intermediate round: the root, the answers, the witness, and the sumcheck
/// behind its seed.
pub open spec fn round_stream(rc: RoundConfig, rd: RoundData) -> Seq<u32> {
    rd.root@ + quad_stream(rd.ood_answers@) + witness_stream(rc.pow_bits as nat, rd.pow_witness)
        + rd.seed_sumcheck@ + sumcheck_stream(rd.sumcheck@, rc.folding_pow_bits as nat)
}

/// The commitment and the claims, each behind its own seed.
#[verifier::opaque]
pub open spec fn opening_stream(data: TranscriptData) -> Seq<u32> {
    data.seed_commitment@ + data.root@ + joined(
        |k: int| data.seed_virtual@[k]@ + data.initial_ood_answers@[k]@,
        data.initial_ood_answers@.len(),
    ) + joined(
        |k: int| data.seed_claim@[k]@ + quad_stream(data.openings@[k]@),
        data.openings@.len(),
    ) + data.seed_whir@ + data.seed_batching@
}

/// The end: the final polynomial, the witness, and the sumcheck behind its seed.
#[verifier::opaque]
pub open spec fn final_stream(cfg: TranscriptConfig, data: TranscriptData) -> Seq<u32> {
    quad_stream(data.final_poly@) + witness_stream(
        cfg.final_pow_bits as nat,
        data.final_pow_witness,
    ) + data.seed_final_sumcheck@ + sumcheck_stream(
        data.final_sumcheck@,
        cfg.final_folding_pow_bits as nat,
    )
}

/// The whole transcript.
pub open spec fn stream(cfg: TranscriptConfig, data: TranscriptData) -> Seq<u32> {
    opening_stream(data) + data.seed_initial_sumcheck@ + sumcheck_stream(
        data.initial_sumcheck@,
        cfg.initial_folding_pow_bits as nat,
    ) + joined(
        |i: int| round_stream(cfg.rounds@[i], data.rounds@[i]),
        cfg.rounds@.len(),
    ) + final_stream(cfg, data)
}

// ---------------------------------------------------------------------------
// The steps.
// ---------------------------------------------------------------------------

proof fn lemma_steps(s: Log, v: u32)
    ensures
        absorbed(s.push(Some(v))) == absorbed(s).push(v),
        absorbed(s.push(None)) == absorbed(s),
{
    assert(s.push(Some(v)).drop_last() =~= s);
    assert(s.push(None).drop_last() =~= s);
}

proof fn lemma_all(g: spec_fn(Log) -> u32, s: Log, vs: Seq<u32>)
    ensures
        absorbed(schedule::absorb_all(recorder(g), s, vs)) == absorbed(s) + vs,
    decreases vs.len(),
{
    if vs.len() == 0 {
        assert(absorbed(s) + vs =~= absorbed(s));
    } else {
        lemma_all(g, s, vs.drop_last());
        lemma_steps(schedule::absorb_all(recorder(g), s, vs.drop_last()), vs.last());
        assert((absorbed(s) + vs.drop_last()).push(vs.last()) =~= absorbed(s) + vs);
    }
}

proof fn lemma_quad(g: spec_fn(Log) -> u32, s: Log, x: Seq<u32>)
    requires
        x.len() == 4,
    ensures
        absorbed(schedule::absorb_quad(recorder(g), s, x)) == absorbed(s) + x,
{
    let s1 = s.push(Some(x[0]));
    let s2 = s1.push(Some(x[1]));
    let s3 = s2.push(Some(x[2]));
    lemma_steps(s, x[0]);
    lemma_steps(s1, x[1]);
    lemma_steps(s2, x[2]);
    lemma_steps(s3, x[3]);
    assert(absorbed(s).push(x[0]).push(x[1]).push(x[2]).push(x[3]) =~= absorbed(s) + x);
}

proof fn lemma_quads(g: spec_fn(Log) -> u32, s: Log, xs: Seq<[u32; 4]>)
    ensures
        absorbed(schedule::absorb_quads(recorder(g), s, xs)) == absorbed(s) + quad_stream(xs),
    decreases xs.len(),
{
    if xs.len() == 0 {
        assert(absorbed(s) + quad_stream(xs) =~= absorbed(s));
    } else {
        let front = xs.drop_last();
        lemma_quads(g, s, front);
        lemma_quad(g, schedule::absorb_quads(recorder(g), s, front), xs.last()@);
        lemma_same_parts(|k: int| xs[k]@, |k: int| front[k]@, front.len());
        assert(absorbed(s) + quad_stream(front) + xs.last()@ =~= absorbed(s) + quad_stream(xs));
    }
}

proof fn lemma_same_parts(a: spec_fn(int) -> Seq<u32>, b: spec_fn(int) -> Seq<u32>, n: nat)
    requires
        forall|k: int| 0 <= k < n ==> a(k) == #[trigger] b(k),
    ensures
        joined(a, n) == joined(b, n),
    decreases n,
{
    if n > 0 {
        lemma_same_parts(a, b, (n - 1) as nat);
        assert(a(n - 1) == b(n - 1));
    }
}

proof fn lemma_draw_quad(g: spec_fn(Log) -> u32, s: Log)
    ensures
        absorbed(schedule::draw_quad(recorder(g), s).0) == absorbed(s),
{
    let s1 = s.push(None);
    let s2 = s1.push(None);
    let s3 = s2.push(None);
    lemma_steps(s, 0);
    lemma_steps(s1, 0);
    lemma_steps(s2, 0);
    lemma_steps(s3, 0);
}

proof fn lemma_witness(g: spec_fn(Log) -> u32, s: Log, bits: nat, w: u32)
    ensures
        absorbed(schedule::check_witness(recorder(g), s, bits, w).0) == absorbed(s)
            + witness_stream(bits, w),
{
    if bits == 0 {
        assert(absorbed(s) + witness_stream(bits, w) =~= absorbed(s));
    } else {
        lemma_steps(s, w);
        lemma_steps(s.push(Some(w)), 0);
        assert(absorbed(s) + seq![w] =~= absorbed(s).push(w));
    }
}

proof fn lemma_draw_at(g: spec_fn(Log) -> u32, s: Log, k: nat)
    ensures
        absorbed(schedule::draw_at(recorder(g), s, k).0) == absorbed(s),
    decreases k,
{
    if k == 0 {
        lemma_steps(s, 0);
    } else {
        lemma_draw_at(g, s, (k - 1) as nat);
        lemma_steps(schedule::draw_at(recorder(g), s, (k - 1) as nat).0, 0);
    }
}

proof fn lemma_chunk(g: spec_fn(Log) -> u32, s: Log, bits: nat)
    ensures
        schedule::draw_chunk(recorder(g), s, bits) matches Some((e, _)) ==> absorbed(e)
            == absorbed(s),
{
    let t = sponge::threshold(bits);
    lemma_draw_at(g, s, choose|k: nat| schedule::is_first(recorder(g), s, t, k));
}

proof fn lemma_bits(g: spec_fn(Log) -> u32, s: Log, bits: nat)
    ensures
        schedule::draw_bits(recorder(g), s, bits) matches Some((e, _)) ==> absorbed(e) == absorbed(
            s,
        ),
{
    lemma_chunk(g, s, bits);
    lemma_chunk(g, s, bits / 2);
    if let Some((e, _)) = schedule::draw_chunk(recorder(g), s, bits / 2) {
        lemma_chunk(g, e, (bits - bits / 2) as nat);
    }
}

proof fn lemma_queries(g: spec_fn(Log) -> u32, s: Log, bits: nat, n: nat)
    ensures
        schedule::uniform_draws(recorder(g), s, bits, n) matches Some((e, _)) ==> absorbed(e)
            == absorbed(s),
        schedule::queries(recorder(g), s, bits, n) matches Some((e, _)) ==> absorbed(e)
            == absorbed(s),
    decreases n,
{
    if n > 0 {
        lemma_queries(g, s, bits, (n - 1) as nat);
        if let Some((e, _)) = schedule::uniform_draws(recorder(g), s, bits, (n - 1) as nat) {
            lemma_bits(g, e, bits);
        }
    }
}

proof fn lemma_sumcheck(
    g: spec_fn(Log) -> u32,
    s: Log,
    rs: Seq<SumcheckRoundData>,
    bits: nat,
    n: nat,
)
    ensures
        absorbed(schedule::sumchecks(recorder(g), s, rs, bits, n).0) == absorbed(s) + joined(
            |k: int|
                rs[k].poly@[0]@ + rs[k].poly@[1]@ + witness_stream(bits, rs[k].pow_witness),
            n,
        ),
    decreases n,
{
    let m = recorder(g);
    let parts = |k: int|
        rs[k].poly@[0]@ + rs[k].poly@[1]@ + witness_stream(bits, rs[k].pow_witness);
    if n == 0 {
        assert(absorbed(s) + joined(parts, 0) =~= absorbed(s));
    } else {
        let k = n - 1;
        lemma_sumcheck(g, s, rs, bits, k as nat);
        let e = schedule::sumchecks(m, s, rs, bits, k as nat).0;
        let r = rs[k];
        lemma_quad(g, e, r.poly@[0]@);
        let f = schedule::absorb_quad(m, e, r.poly@[0]@);
        lemma_quad(g, f, r.poly@[1]@);
        let h = schedule::absorb_quad(m, f, r.poly@[1]@);
        lemma_witness(g, h, bits, r.pow_witness);
        let w = schedule::check_witness(m, h, bits, r.pow_witness).0;
        lemma_draw_quad(g, w);
        assert(absorbed(e) + r.poly@[0]@ + r.poly@[1]@ + witness_stream(bits, r.pow_witness)
            =~= absorbed(s) + joined(parts, n));
    }
}

proof fn lemma_virtual(
    g: spec_fn(Log) -> u32,
    s: Log,
    seeds: Seq<Vec<u32>>,
    answers: Seq<[u32; 4]>,
    n: nat,
)
    ensures
        absorbed(schedule::virtual_claims(recorder(g), s, seeds, answers, n).0) == absorbed(s)
            + joined(|k: int| seeds[k]@ + answers[k]@, n),
    decreases n,
{
    let m = recorder(g);
    let parts = |k: int| seeds[k]@ + answers[k]@;
    if n == 0 {
        assert(absorbed(s) + joined(parts, 0) =~= absorbed(s));
    } else {
        let k = n - 1;
        lemma_virtual(g, s, seeds, answers, k as nat);
        let e = schedule::virtual_claims(m, s, seeds, answers, k as nat).0;
        lemma_all(g, e, seeds[k]@);
        let f = schedule::absorb_all(m, e, seeds[k]@);
        lemma_draw_quad(g, f);
        lemma_quad(g, schedule::draw_quad(m, f).0, answers[k]@);
        assert(absorbed(e) + seeds[k]@ + answers[k]@ =~= absorbed(s) + joined(parts, n));
    }
}

proof fn lemma_claims(
    g: spec_fn(Log) -> u32,
    s: Log,
    seeds: Seq<Vec<u32>>,
    openings: Seq<Vec<[u32; 4]>>,
    n: nat,
)
    ensures
        absorbed(schedule::opening_claims(recorder(g), s, seeds, openings, n).0) == absorbed(s)
            + joined(|k: int| seeds[k]@ + quad_stream(openings[k]@), n),
    decreases n,
{
    let m = recorder(g);
    let parts = |k: int| seeds[k]@ + quad_stream(openings[k]@);
    if n == 0 {
        assert(absorbed(s) + joined(parts, 0) =~= absorbed(s));
    } else {
        let k = n - 1;
        lemma_claims(g, s, seeds, openings, k as nat);
        let e = schedule::opening_claims(m, s, seeds, openings, k as nat).0;
        lemma_all(g, e, seeds[k]@);
        let f = schedule::absorb_all(m, e, seeds[k]@);
        lemma_draw_quad(g, f);
        lemma_quads(g, schedule::draw_quad(m, f).0, openings[k]@);
        assert(absorbed(e) + seeds[k]@ + quad_stream(openings[k]@) =~= absorbed(s) + joined(
            parts,
            n,
        ));
    }
}

proof fn lemma_ood(g: spec_fn(Log) -> u32, s: Log, answers: Seq<[u32; 4]>, n: nat)
    ensures
        absorbed(schedule::ood_samples(recorder(g), s, answers, n).0) == absorbed(s) + joined(
            |k: int| answers[k]@,
            n,
        ),
    decreases n,
{
    let m = recorder(g);
    let parts = |k: int| answers[k]@;
    if n == 0 {
        assert(absorbed(s) + joined(parts, 0) =~= absorbed(s));
    } else {
        let k = n - 1;
        lemma_ood(g, s, answers, k as nat);
        let e = schedule::ood_samples(m, s, answers, k as nat).0;
        lemma_draw_quad(g, e);
        lemma_quad(g, schedule::draw_quad(m, e).0, answers[k]@);
        assert(absorbed(e) + answers[k]@ =~= absorbed(s) + joined(parts, n));
    }
}

proof fn lemma_round(g: spec_fn(Log) -> u32, s: Log, rc: RoundConfig, rd: RoundData)
    ensures
        schedule::round(recorder(g), s, rc, rd) matches Some((e, _)) ==> absorbed(e) == absorbed(s)
            + round_stream(rc, rd),
{
    let m = recorder(g);
    lemma_all(g, s, rd.root@);
    let s1 = schedule::absorb_all(m, s, rd.root@);
    lemma_ood(g, s1, rd.ood_answers@, rd.ood_answers@.len());
    let s2 = schedule::ood_samples(m, s1, rd.ood_answers@, rd.ood_answers@.len()).0;
    lemma_witness(g, s2, rc.pow_bits as nat, rd.pow_witness);
    let s3 = schedule::check_witness(m, s2, rc.pow_bits as nat, rd.pow_witness).0;
    lemma_queries(g, s3, rc.domain_bits as nat, rc.num_queries as nat);
    if let Some((s4, _)) = schedule::queries(
        m,
        s3,
        rc.domain_bits as nat,
        rc.num_queries as nat,
    ) {
        lemma_draw_quad(g, s4);
        let s5 = schedule::draw_quad(m, s4).0;
        lemma_all(g, s5, rd.seed_sumcheck@);
        let s6 = schedule::absorb_all(m, s5, rd.seed_sumcheck@);
        lemma_sumcheck(g, s6, rd.sumcheck@, rc.folding_pow_bits as nat, rd.sumcheck@.len());
        assert(absorbed(s) + rd.root@ + quad_stream(rd.ood_answers@) + witness_stream(
            rc.pow_bits as nat,
            rd.pow_witness,
        ) + rd.seed_sumcheck@ + sumcheck_stream(rd.sumcheck@, rc.folding_pow_bits as nat)
            =~= absorbed(s) + round_stream(rc, rd));
    }
}

proof fn lemma_rounds(
    g: spec_fn(Log) -> u32,
    s: Log,
    cfgs: Seq<RoundConfig>,
    data: Seq<RoundData>,
    n: nat,
)
    ensures
        schedule::rounds(recorder(g), s, cfgs, data, n) matches Some((e, _, _)) ==> absorbed(e)
            == absorbed(s) + joined(|i: int| round_stream(cfgs[i], data[i]), n),
    decreases n,
{
    let m = recorder(g);
    let parts = |i: int| round_stream(cfgs[i], data[i]);
    if n == 0 {
        assert(absorbed(s) + joined(parts, 0) =~= absorbed(s));
    } else {
        let k = n - 1;
        lemma_rounds(g, s, cfgs, data, k as nat);
        if let Some((e, _, _)) = schedule::rounds(m, s, cfgs, data, k as nat) {
            lemma_round(g, e, cfgs[k], data[k]);
            assert(absorbed(s) + joined(parts, k as nat) + parts(k) =~= absorbed(s) + joined(
                parts,
                n,
            ));
        }
    }
}

proof fn lemma_opening(g: spec_fn(Log) -> u32, s: Log, data: TranscriptData)
    ensures
        absorbed(schedule::opening_phase(recorder(g), s, data).0) == absorbed(s) + opening_stream(data),
{
    reveal(opening_stream);
    let m = recorder(g);
    lemma_all(g, s, data.seed_commitment@);
    let s0 = schedule::absorb_all(m, s, data.seed_commitment@);
    lemma_all(g, s0, data.root@);
    let s1 = schedule::absorb_all(m, s0, data.root@);
    let n = data.initial_ood_answers@.len();
    lemma_virtual(g, s1, data.seed_virtual@, data.initial_ood_answers@, n);
    let s2 = schedule::virtual_claims(m, s1, data.seed_virtual@, data.initial_ood_answers@, n).0;
    lemma_claims(g, s2, data.seed_claim@, data.openings@, data.openings@.len());
    let s3 = schedule::opening_claims(
        m,
        s2,
        data.seed_claim@,
        data.openings@,
        data.openings@.len(),
    ).0;
    lemma_all(g, s3, data.seed_whir@);
    let s4 = schedule::absorb_all(m, s3, data.seed_whir@);
    lemma_all(g, s4, data.seed_batching@);
    let s5 = schedule::absorb_all(m, s4, data.seed_batching@);
    lemma_draw_quad(g, s5);
    assert(absorbed(s5) =~= absorbed(s) + opening_stream(data));
}

proof fn lemma_final(
    g: spec_fn(Log) -> u32,
    s: Log,
    cfg: TranscriptConfig,
    data: TranscriptData,
)
    ensures
        schedule::final_phase(recorder(g), s, cfg, data) matches Some((e, _, _, _)) ==> absorbed(e)
            == absorbed(s) + final_stream(cfg, data),
{
    reveal(final_stream);
    let m = recorder(g);
    lemma_quads(g, s, data.final_poly@);
    let t0 = schedule::absorb_quads(m, s, data.final_poly@);
    let bits = cfg.final_pow_bits as nat;
    lemma_witness(g, t0, bits, data.final_pow_witness);
    let t1 = schedule::check_witness(m, t0, bits, data.final_pow_witness).0;
    lemma_queries(g, t1, cfg.final_domain_bits as nat, cfg.final_queries as nat);
    if let Some((t2, _)) = schedule::queries(
        m,
        t1,
        cfg.final_domain_bits as nat,
        cfg.final_queries as nat,
    ) {
        lemma_all(g, t2, data.seed_final_sumcheck@);
        let t3 = schedule::absorb_all(m, t2, data.seed_final_sumcheck@);
        let (rs, grind) = (data.final_sumcheck@, cfg.final_folding_pow_bits as nat);
        lemma_sumcheck(g, t3, rs, grind, rs.len());
        let t4 = schedule::sumchecks(m, t3, rs, grind, rs.len()).0;
        assert(absorbed(t4) =~= absorbed(s) + final_stream(cfg, data));
    }
}

/// Over the whole transcript, whatever is drawn, the sponge absorbs every seed and
/// every message of the proof, each claim's, sample's and round's own, once and in
/// the order in which they are sent, and nothing else.
pub proof fn law_every_message_is_absorbed(
    g: spec_fn(Log) -> u32,
    s: Log,
    cfg: TranscriptConfig,
    data: TranscriptData,
)
    ensures
        schedule::run(recorder(g), s, cfg, data) matches Some((e, _)) ==> absorbed(e) == absorbed(s)
            + stream(cfg, data),
{
    let m = recorder(g);
    lemma_opening(g, s, data);
    let s1 = schedule::opening_phase(m, s, data).0;
    lemma_all(g, s1, data.seed_initial_sumcheck@);
    let s2 = schedule::absorb_all(m, s1, data.seed_initial_sumcheck@);
    let (rs, bits) = (data.initial_sumcheck@, cfg.initial_folding_pow_bits as nat);
    lemma_sumcheck(g, s2, rs, bits, rs.len());
    let s3 = schedule::sumchecks(m, s2, rs, bits, rs.len()).0;
    lemma_rounds(g, s3, cfg.rounds@, data.rounds@, cfg.rounds@.len());
    if let Some((s4, _, _)) = schedule::rounds(
        m,
        s3,
        cfg.rounds@,
        data.rounds@,
        cfg.rounds@.len(),
    ) {
        lemma_final(g, s4, cfg, data);
        if let Some((e, _, _, _)) = schedule::final_phase(m, s4, cfg, data) {
            assert(absorbed(e) =~= absorbed(s) + stream(cfg, data));
        }
    }
}

} // verus!

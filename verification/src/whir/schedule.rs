//! The transcript's schedule over any sponge: what is absorbed when, and what is
//! drawn from it.
//!
//! A sponge is a [`Machine`]: how its state takes an element in and gives one
//! out. A query position is drawn by rejection, and nothing says of a sponge in
//! general that such a draw ends; one that does not is `None` here.
use super::reference::{
    Draws, RoundConfig, RoundData, RoundDraws, SumcheckRoundData, TranscriptConfig, TranscriptData,
};
use super::sponge;
use super::sponge::MAX_SINGLE_SAMPLE_BITS;
use crate::poseidon2::constants::P;
use crate::poseidon2::ext4::Quad;
use vstd::arithmetic::power2::{lemma_pow2_pos, pow2};
use vstd::prelude::*;

verus! {

/// How a sponge's state changes: an element in, or an element out.
#[verifier::reject_recursive_types(St)]
pub struct Machine<St> {
    pub absorb: spec_fn(St, u32) -> St,
    pub draw: spec_fn(St) -> (St, u32),
}

// ---------------------------------------------------------------------------
// Elements in and out.
// ---------------------------------------------------------------------------

pub open spec fn absorb_all<St>(m: Machine<St>, st: St, vs: Seq<u32>) -> St
    decreases vs.len(),
{
    if vs.len() == 0 {
        st
    } else {
        (m.absorb)(absorb_all(m, st, vs.drop_last()), vs.last())
    }
}

/// The four coefficients of an extension element, the first first.
pub open spec fn absorb_quad<St>(m: Machine<St>, st: St, x: Seq<u32>) -> St {
    (m.absorb)((m.absorb)((m.absorb)((m.absorb)(st, x[0]), x[1]), x[2]), x[3])
}

/// Every element of a list.
pub open spec fn absorb_quads<St>(m: Machine<St>, st: St, xs: Seq<[u32; 4]>) -> St
    decreases xs.len(),
{
    if xs.len() == 0 {
        st
    } else {
        absorb_quad(m, absorb_quads(m, st, xs.drop_last()), xs.last()@)
    }
}

/// Four draws, the coefficients in draw order.
pub open spec fn draw_quad<St>(m: Machine<St>, st: St) -> (St, Quad) {
    let (s1, a) = (m.draw)(st);
    let (s2, b) = (m.draw)(s1);
    let (s3, c) = (m.draw)(s2);
    let (s4, d) = (m.draw)(s3);
    (s4, Quad { a: a as int, b: b as int, c: c as int, d: d as int })
}

/// The low `bits` bits of one draw.
pub open spec fn draw_low<St>(m: Machine<St>, st: St, bits: nat) -> (St, int) {
    let (s, v) = (m.draw)(st);
    (s, v as int % (pow2(bits) as int))
}

/// A proof of work: the witness absorbed, `bits` drawn bits must be zero.
pub open spec fn check_witness<St>(m: Machine<St>, st: St, bits: nat, witness: u32) -> (St, bool) {
    if bits == 0 {
        (st, true)
    } else {
        let (s, v) = draw_low(m, (m.absorb)(st, witness), bits);
        (s, v == 0)
    }
}

/// The draw after `k` others.
pub open spec fn draw_at<St>(m: Machine<St>, st: St, k: nat) -> (St, u32)
    decreases k,
{
    if k == 0 {
        (m.draw)(st)
    } else {
        (m.draw)(draw_at(m, st, (k - 1) as nat).0)
    }
}

/// Draw `k` is the first below `t`.
pub open spec fn is_first<St>(m: Machine<St>, st: St, t: int, k: nat) -> bool {
    &&& draw_at(m, st, k).1 < t
    &&& forall|j: nat| j < k ==> (#[trigger] draw_at(m, st, j)).1 >= t
}

/// Draws until one is below the threshold, and its low bits; nothing where none
/// is.
pub open spec fn draw_chunk<St>(m: Machine<St>, st: St, bits: nat) -> Option<(St, int)> {
    let t = sponge::threshold(bits);
    if exists|k: nat| is_first(m, st, t, k) {
        let (s, v) = draw_at(m, st, choose|k: nat| is_first(m, st, t, k));
        Some((s, v as int % (pow2(bits) as int)))
    } else {
        None
    }
}

/// `bits` uniform bits: one chunk, or two halves past
/// [`MAX_SINGLE_SAMPLE_BITS`], the low one first.
pub open spec fn draw_bits<St>(m: Machine<St>, st: St, bits: nat) -> Option<(St, int)> {
    if bits == 0 {
        Some((st, 0))
    } else if bits <= MAX_SINGLE_SAMPLE_BITS {
        draw_chunk(m, st, bits)
    } else {
        let half = bits / 2;
        match draw_chunk(m, st, half) {
            None => None,
            Some((s, low)) => match draw_chunk(m, s, (bits - half) as nat) {
                None => None,
                Some((e, high)) => Some((e, low + high * pow2(half))),
            },
        }
    }
}

// ---------------------------------------------------------------------------
// The phases.
// ---------------------------------------------------------------------------

/// The first `k` out-of-domain claims: each seed, a point, the answer.
pub open spec fn virtual_claims<St>(
    m: Machine<St>,
    st: St,
    seeds: Seq<Vec<u32>>,
    answers: Seq<[u32; 4]>,
    k: nat,
) -> (St, Seq<Quad>)
    decreases k,
{
    if k == 0 {
        (st, Seq::empty())
    } else {
        let (e, points) = virtual_claims(m, st, seeds, answers, (k - 1) as nat);
        let (f, point) = draw_quad(m, absorb_all(m, e, seeds[k - 1]@));
        (absorb_quad(m, f, answers[k - 1]@), points.push(point))
    }
}

/// The first `k` opening claims: each seed, a point, the evaluations.
pub open spec fn opening_claims<St>(
    m: Machine<St>,
    st: St,
    seeds: Seq<Vec<u32>>,
    openings: Seq<Vec<[u32; 4]>>,
    k: nat,
) -> (St, Seq<Quad>)
    decreases k,
{
    if k == 0 {
        (st, Seq::empty())
    } else {
        let (e, points) = opening_claims(m, st, seeds, openings, (k - 1) as nat);
        let (f, point) = draw_quad(m, absorb_all(m, e, seeds[k - 1]@));
        (absorb_quads(m, f, openings[k - 1]@), points.push(point))
    }
}

/// The first `k` sumcheck rounds: both coefficients, proof of work, a challenge.
pub open spec fn sumchecks<St>(
    m: Machine<St>,
    st: St,
    rounds: Seq<SumcheckRoundData>,
    pow_bits: nat,
    k: nat,
) -> (St, Seq<Quad>, bool)
    decreases k,
{
    if k == 0 {
        (st, Seq::empty(), true)
    } else {
        let (e, rs, ok) = sumchecks(m, st, rounds, pow_bits, (k - 1) as nat);
        let r = rounds[k - 1];
        let f = absorb_quad(m, absorb_quad(m, e, r.poly@[0]@), r.poly@[1]@);
        let (g, here) = check_witness(m, f, pow_bits, r.pow_witness);
        let (h, x) = draw_quad(m, g);
        (h, rs.push(x), ok && here)
    }
}

/// The first `k` out-of-domain samples of a round: a point, the answer.
pub open spec fn ood_samples<St>(m: Machine<St>, st: St, answers: Seq<[u32; 4]>, k: nat) -> (
    St,
    Seq<Quad>,
)
    decreases k,
{
    if k == 0 {
        (st, Seq::empty())
    } else {
        let (e, points) = ood_samples(m, st, answers, (k - 1) as nat);
        let (f, point) = draw_quad(m, e);
        (absorb_quad(m, f, answers[k - 1]@), points.push(point))
    }
}

/// `k` uniform draws of `bits` bits.
pub open spec fn uniform_draws<St>(m: Machine<St>, st: St, bits: nat, k: nat) -> Option<
    (St, Seq<int>),
>
    decreases k,
{
    if k == 0 {
        Some((st, Seq::empty()))
    } else {
        match uniform_draws(m, st, bits, (k - 1) as nat) {
            None => None,
            Some((e, qs)) => match draw_bits(m, e, bits) {
                None => None,
                Some((f, q)) => Some((f, qs.push(q))),
            },
        }
    }
}

/// The query positions: `n` uniform draws in draw order, duplicates kept; every
/// position, with no draw at all, when the domain is no larger than that.
pub open spec fn queries<St>(m: Machine<St>, st: St, bits: nat, n: nat) -> Option<(St, Seq<int>)> {
    if n >= pow2(bits) {
        Some((st, Seq::new(pow2(bits), |i: int| i)))
    } else {
        uniform_draws(m, st, bits, n)
    }
}

/// One intermediate round.
pub open spec fn round<St>(m: Machine<St>, st: St, rc: RoundConfig, rd: RoundData) -> Option<
    (St, RoundDraws),
> {
    let (e, ood_points) = ood_samples(
        m,
        absorb_all(m, st, rd.root@),
        rd.ood_answers@,
        rd.ood_answers@.len(),
    );
    let (f, worked) = check_witness(m, e, rc.pow_bits as nat, rd.pow_witness);
    match queries(m, f, rc.domain_bits as nat, rc.num_queries as nat) {
        None => None,
        Some((g, qs)) => {
            let (h, combination) = draw_quad(m, g);
            let (i, folding, ok) = sumchecks(
                m,
                absorb_all(m, h, rd.seed_sumcheck@),
                rd.sumcheck@,
                rc.folding_pow_bits as nat,
                rd.sumcheck@.len(),
            );
            let drawn = RoundDraws {
                ood_points,
                queries: qs,
                combination,
                folding,
                pow_ok: worked && ok,
            };
            Some((i, drawn))
        },
    }
}

/// The first `k` intermediate rounds.
pub open spec fn rounds<St>(
    m: Machine<St>,
    st: St,
    cfgs: Seq<RoundConfig>,
    data: Seq<RoundData>,
    k: nat,
) -> Option<(St, Seq<RoundDraws>, bool)>
    decreases k,
{
    if k == 0 {
        Some((st, Seq::empty(), true))
    } else {
        match rounds(m, st, cfgs, data, (k - 1) as nat) {
            None => None,
            Some((e, rs, ok)) => match round(m, e, cfgs[k - 1], data[k - 1]) {
                None => None,
                Some((f, r)) => Some((f, rs.push(r), ok && r.pow_ok)),
            },
        }
    }
}

/// The sponge and the draws up to the batching randomness.
pub open spec fn opening_phase<St>(m: Machine<St>, st: St, data: TranscriptData) -> (
    St,
    Seq<Quad>,
    Seq<Quad>,
    Quad,
) {
    let start = absorb_all(m, absorb_all(m, st, data.seed_commitment@), data.root@);
    let (e, ood) = virtual_claims(
        m,
        start,
        data.seed_virtual@,
        data.initial_ood_answers@,
        data.initial_ood_answers@.len(),
    );
    let (f, claims) = opening_claims(
        m,
        e,
        data.seed_claim@,
        data.openings@,
        data.openings@.len(),
    );
    let (g, alpha) = draw_quad(
        m,
        absorb_all(m, absorb_all(m, f, data.seed_whir@), data.seed_batching@),
    );
    (g, ood, claims, alpha)
}

/// The draws after the rounds.
pub open spec fn final_phase<St>(
    m: Machine<St>,
    st: St,
    cfg: TranscriptConfig,
    data: TranscriptData,
) -> Option<(St, Seq<int>, Seq<Quad>, bool)> {
    let (e, worked) = check_witness(
        m,
        absorb_quads(m, st, data.final_poly@),
        cfg.final_pow_bits as nat,
        data.final_pow_witness,
    );
    match queries(m, e, cfg.final_domain_bits as nat, cfg.final_queries as nat) {
        None => None,
        Some((f, qs)) => {
            let (g, folding, ok) = sumchecks(
                m,
                absorb_all(m, f, data.seed_final_sumcheck@),
                data.final_sumcheck@,
                cfg.final_folding_pow_bits as nat,
                data.final_sumcheck@.len(),
            );
            Some((g, qs, folding, worked && ok))
        },
    }
}

/// The whole transcript from the state `st`: where the sponge ends and what is
/// drawn; nothing where a draw never ends.
pub open spec fn run<St>(
    m: Machine<St>,
    st: St,
    cfg: TranscriptConfig,
    data: TranscriptData,
) -> Option<(St, Draws)> {
    let (g, ood, claims, alpha) = opening_phase(m, st, data);
    let (h, folding, first) = sumchecks(
        m,
        absorb_all(m, g, data.seed_initial_sumcheck@),
        data.initial_sumcheck@,
        cfg.initial_folding_pow_bits as nat,
        data.initial_sumcheck@.len(),
    );
    match rounds(m, h, cfg.rounds@, data.rounds@, cfg.rounds@.len()) {
        None => None,
        Some((i, rs, middle)) => match final_phase(m, i, cfg, data) {
            None => None,
            Some((j, qs, last_folding, last)) => Some(
                (
                    j,
                    Draws {
                        initial_ood_points: ood,
                        opening_points: claims,
                        alpha,
                        initial_folding: folding,
                        rounds: rs,
                        final_queries: qs,
                        final_folding: last_folding,
                        pow_ok: first && middle && last,
                    },
                ),
            ),
        },
    }
}

// ---------------------------------------------------------------------------
// Facts.
// ---------------------------------------------------------------------------

pub proof fn lemma_first_unique<St>(m: Machine<St>, st: St, t: int, j: nat, k: nat)
    requires
        is_first(m, st, t, j),
        is_first(m, st, t, k),
    ensures
        j == k,
{
    if j < k {
        assert(draw_at(m, st, j).1 >= t);
    }
    if k < j {
        assert(draw_at(m, st, k).1 >= t);
    }
}

pub proof fn lemma_draw_chunk<St>(m: Machine<St>, st: St, bits: nat)
    ensures
        draw_chunk(m, st, bits) matches Some((_, v)) ==> 0 <= v < pow2(bits),
{
    lemma_pow2_pos(bits);
    if let Some((s, v)) = draw_chunk(m, st, bits) {
        let k = choose|k: nat| is_first(m, st, sponge::threshold(bits), k);
        vstd::arithmetic::div_mod::lemma_mod_bound(
            draw_at(m, st, k).1 as int,
            pow2(bits) as int,
        );
    }
}

/// A draw is kept below the greatest multiple of `2^bits` that is no more than the
/// order, so that every value of the low bits is met equally often; the first draw
/// that is kept gives the bits.
pub proof fn law_chunks_are_uniform<St>(m: Machine<St>, st: St, bits: nat, k: nat)
    requires
        bits <= MAX_SINGLE_SAMPLE_BITS,
        draw_at(m, st, k).1 < sponge::threshold(bits),
        forall|j: nat| j < k ==> (#[trigger] draw_at(m, st, j)).1 >= sponge::threshold(bits),
    ensures
        sponge::threshold(bits) % (pow2(bits) as int) == 0,
        sponge::threshold(bits) <= P < sponge::threshold(bits) + pow2(bits),
        draw_chunk(m, st, bits) == Some(
            (draw_at(m, st, k).0, draw_at(m, st, k).1 as int % (pow2(bits) as int)),
        ),
        bits > 0 ==> draw_bits(m, st, bits) == draw_chunk(m, st, bits),
{
    lemma_pow2_pos(bits);
    let (p, d) = (P as int, pow2(bits) as int);
    vstd::arithmetic::div_mod::lemma_fundamental_div_mod(p, d);
    vstd::arithmetic::mul::lemma_mul_is_commutative(p / d, d);
    vstd::arithmetic::div_mod::lemma_mod_multiples_basic(p / d, d);
    vstd::arithmetic::div_mod::lemma_mod_bound(p, d);
    let t = sponge::threshold(bits);
    assert(is_first(m, st, t, k));
    lemma_first_unique(m, st, t, choose|k: nat| is_first(m, st, t, k), k);
}

/// More bits than one draw gives come from two, one after the other: the first gives
/// the low half, the second the rest.
pub proof fn law_long_draws_have_two_halves<St>(m: Machine<St>, st: St, bits: nat)
    requires
        bits > MAX_SINGLE_SAMPLE_BITS,
    ensures
        draw_bits(m, st, bits) matches Some((e, v)) ==> {
            &&& draw_chunk(m, st, bits / 2) matches Some((s, low))
            &&& v % (pow2(bits / 2) as int) == low
            &&& draw_chunk(m, s, (bits - bits / 2) as nat) == Some(
                (e, v / (pow2(bits / 2) as int)),
            )
        },
{
    let half = bits / 2;
    lemma_pow2_pos(half);
    lemma_draw_chunk(m, st, half);
    if let Some((s, low)) = draw_chunk(m, st, half) {
        if let Some((e, high)) = draw_chunk(m, s, (bits - half) as nat) {
            vstd::arithmetic::div_mod::lemma_fundamental_div_mod_converse(
                low + high * pow2(half),
                pow2(half) as int,
                high,
                low,
            );
        }
    }
}

/// Uniform bits are that many bits.
pub proof fn lemma_draw_bits<St>(m: Machine<St>, st: St, bits: nat)
    ensures
        draw_bits(m, st, bits) matches Some((_, v)) ==> 0 <= v < pow2(bits),
{
    lemma_pow2_pos(bits);
    if bits > 0 && bits <= MAX_SINGLE_SAMPLE_BITS {
        lemma_draw_chunk(m, st, bits);
    } else if bits > 0 {
        let half = bits / 2;
        let rest = (bits - half) as nat;
        lemma_draw_chunk(m, st, half);
        if let Some((s, low)) = draw_chunk(m, st, half) {
            lemma_draw_chunk(m, s, rest);
            if let Some((e, high)) = draw_chunk(m, s, rest) {
                vstd::arithmetic::power2::lemma_pow2_adds(half, rest);
                let (a, b) = (pow2(half) as int, pow2(rest) as int);
                assert(low + high * a < a * b) by (nonlinear_arith)
                    requires
                        0 <= low < a,
                        0 <= high < b,
                ;
                assert(low + high * a >= 0) by (nonlinear_arith)
                    requires
                        0 <= low,
                        0 <= high,
                        a > 0,
                ;
            }
        }
    }
}

/// Where `n` draws end, the first `k` do.
pub proof fn lemma_uniform_draws<St>(m: Machine<St>, st: St, bits: nat, k: nat, n: nat)
    requires
        k <= n,
        uniform_draws(m, st, bits, n) is Some,
    ensures
        uniform_draws(m, st, bits, k) is Some,
    decreases n,
{
    if k < n {
        lemma_uniform_draws(m, st, bits, k, (n - 1) as nat);
    }
}

/// Where `n` rounds end, the first `k` do.
pub proof fn lemma_rounds<St>(
    m: Machine<St>,
    st: St,
    cfgs: Seq<RoundConfig>,
    data: Seq<RoundData>,
    k: nat,
    n: nat,
)
    requires
        k <= n,
        rounds(m, st, cfgs, data, n) is Some,
    ensures
        rounds(m, st, cfgs, data, k) is Some,
    decreases n,
{
    if k < n {
        lemma_rounds(m, st, cfgs, data, k, (n - 1) as nat);
    }
}

/// Query positions lie in the domain, whatever the sponge: as many as asked for,
/// or each once.
pub proof fn law_positions_in_range<St>(m: Machine<St>, st: St, bits: nat, n: nat)
    ensures
        queries(m, st, bits, n) matches Some((_, qs)) ==> {
            &&& qs.len() == (if n >= pow2(bits) {
                pow2(bits)
            } else {
                n
            })
            &&& forall|i: int| 0 <= i < qs.len() ==> 0 <= #[trigger] qs[i] < pow2(bits)
        },
{
    if n < pow2(bits) {
        lemma_positions(m, st, bits, n);
    }
}

proof fn lemma_positions<St>(m: Machine<St>, st: St, bits: nat, n: nat)
    ensures
        uniform_draws(m, st, bits, n) matches Some((_, qs)) ==> {
            &&& qs.len() == n
            &&& forall|i: int| 0 <= i < qs.len() ==> 0 <= #[trigger] qs[i] < pow2(bits)
        },
    decreases n,
{
    if n > 0 {
        lemma_positions(m, st, bits, (n - 1) as nat);
        if let Some((e, qs)) = uniform_draws(m, st, bits, (n - 1) as nat) {
            lemma_draw_bits(m, e, bits);
        }
    }
}

} // verus!

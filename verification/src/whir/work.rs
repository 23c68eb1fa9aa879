//! The transcript's proofs of work: what it means that they all passed.
use super::reference::{
    Draws, RoundConfig, RoundData, SumcheckRoundData, TranscriptConfig, TranscriptData,
};
use super::schedule;
use super::schedule::Machine;
use vstd::arithmetic::power2::pow2;
use vstd::prelude::*;

verus! {

/// The element drawn right after `witness` is absorbed has `bits` low zero bits.
pub open spec fn ground<St>(m: Machine<St>, st: St, bits: nat, witness: u32) -> bool {
    bits == 0 || (m.draw)((m.absorb)(st, witness)).1 as int % (pow2(bits) as int) == 0
}

/// The sponge as it meets the witness of sumcheck round `k`: the message absorbed.
pub open spec fn at_message<St>(
    m: Machine<St>,
    st: St,
    rounds: Seq<SumcheckRoundData>,
    bits: nat,
    k: int,
) -> St {
    let before = schedule::sumchecks(m, st, rounds, bits, k as nat).0;
    schedule::absorb_quad(
        m,
        schedule::absorb_quad(m, before, rounds[k].poly@[0]@),
        rounds[k].poly@[1]@,
    )
}

/// Every round of a sumcheck is ground.
pub open spec fn sumcheck_ground<St>(
    m: Machine<St>,
    st: St,
    rounds: Seq<SumcheckRoundData>,
    bits: nat,
) -> bool {
    forall|k: int|
        0 <= k < rounds.len() ==> ground(
            m,
            #[trigger] at_message(m, st, rounds, bits, k),
            bits,
            rounds[k].pow_witness,
        )
}

/// The sponge as it meets the witness of an intermediate round: the root absorbed
/// and the out-of-domain samples answered.
pub open spec fn at_round<St>(m: Machine<St>, st: St, rd: RoundData) -> St {
    schedule::ood_samples(
        m,
        schedule::absorb_all(m, st, rd.root@),
        rd.ood_answers@,
        rd.ood_answers@.len(),
    ).0
}

/// The sponge after a witness, whether it passed or not.
pub open spec fn past_witness<St>(m: Machine<St>, st: St, bits: nat, witness: u32) -> St {
    if bits == 0 {
        st
    } else {
        (m.draw)((m.absorb)(st, witness)).0
    }
}

/// An intermediate round that starts at `st` is ground: its own witness, and
/// every one of its sumcheck, which starts after the queries and the combination
/// randomness.
pub open spec fn round_ground<St>(m: Machine<St>, st: St, rc: RoundConfig, rd: RoundData) -> bool {
    let e = at_round(m, st, rd);
    &&& ground(m, e, rc.pow_bits as nat, rd.pow_witness)
    &&& schedule::queries(
        m,
        past_witness(m, e, rc.pow_bits as nat, rd.pow_witness),
        rc.domain_bits as nat,
        rc.num_queries as nat,
    ) matches Some((g, _)) ==> sumcheck_ground(
        m,
        schedule::absorb_all(m, schedule::draw_quad(m, g).0, rd.seed_sumcheck@),
        rd.sumcheck@,
        rc.folding_pow_bits as nat,
    )
}

/// The sponge where round `i` starts.
pub open spec fn at_start<St>(
    m: Machine<St>,
    st: St,
    cfgs: Seq<RoundConfig>,
    data: Seq<RoundData>,
    i: int,
) -> St {
    (schedule::rounds(m, st, cfgs, data, i as nat)->0).0
}

/// The first `n` intermediate rounds are ground.
pub open spec fn rounds_ground<St>(
    m: Machine<St>,
    st: St,
    cfgs: Seq<RoundConfig>,
    data: Seq<RoundData>,
    n: nat,
) -> bool {
    forall|i: int|
        0 <= i < n ==> round_ground(
            m,
            #[trigger] at_start(m, st, cfgs, data, i),
            cfgs[i],
            data[i],
        )
}

/// The sponge where the initial sumcheck starts.
pub open spec fn at_initial<St>(m: Machine<St>, st: St, data: TranscriptData) -> St {
    schedule::absorb_all(
        m,
        schedule::opening_phase(m, st, data).0,
        data.seed_initial_sumcheck@,
    )
}

/// The sponge where the intermediate rounds start.
pub open spec fn at_rounds<St>(
    m: Machine<St>,
    st: St,
    cfg: TranscriptConfig,
    data: TranscriptData,
) -> St {
    schedule::sumchecks(
        m,
        at_initial(m, st, data),
        data.initial_sumcheck@,
        cfg.initial_folding_pow_bits as nat,
        data.initial_sumcheck@.len(),
    ).0
}

/// The end of the transcript that starts at `st` is ground: the final witness,
/// met once the final polynomial is absorbed, and every one of the final
/// sumcheck.
pub open spec fn final_ground<St>(
    m: Machine<St>,
    st: St,
    cfg: TranscriptConfig,
    data: TranscriptData,
) -> bool {
    let e = schedule::absorb_quads(m, st, data.final_poly@);
    &&& ground(m, e, cfg.final_pow_bits as nat, data.final_pow_witness)
    &&& schedule::queries(
        m,
        past_witness(m, e, cfg.final_pow_bits as nat, data.final_pow_witness),
        cfg.final_domain_bits as nat,
        cfg.final_queries as nat,
    ) matches Some((f, _)) ==> sumcheck_ground(
        m,
        schedule::absorb_all(m, f, data.seed_final_sumcheck@),
        data.final_sumcheck@,
        cfg.final_folding_pow_bits as nat,
    )
}

/// A sumcheck reports that its proofs of work passed exactly when each did.
pub proof fn law_sumcheck_work<St>(
    m: Machine<St>,
    st: St,
    rounds: Seq<SumcheckRoundData>,
    bits: nat,
    n: nat,
)
    requires
        n <= rounds.len(),
    ensures
        schedule::sumchecks(m, st, rounds, bits, n).2 == forall|k: int|
            0 <= k < n ==> ground(
                m,
                #[trigger] at_message(m, st, rounds, bits, k),
                bits,
                rounds[k].pow_witness,
            ),
    decreases n,
{
    if n > 0 {
        law_sumcheck_work(m, st, rounds, bits, (n - 1) as nat);
        let here = at_message(m, st, rounds, bits, n - 1);
        assert(schedule::check_witness(m, here, bits, rounds[n - 1].pow_witness).1 == ground(
            m,
            here,
            bits,
            rounds[n - 1].pow_witness,
        ));
    }
}

/// An intermediate round reports that its proofs of work passed exactly when its
/// own did and each of its sumcheck's did.
pub proof fn law_round_work<St>(m: Machine<St>, st: St, rc: RoundConfig, rd: RoundData)
    ensures
        schedule::round(m, st, rc, rd) matches Some((_, drawn)) ==> drawn.pow_ok == round_ground(
            m,
            st,
            rc,
            rd,
        ),
{
    let e = at_round(m, st, rd);
    let f = past_witness(m, e, rc.pow_bits as nat, rd.pow_witness);
    assert(schedule::check_witness(m, e, rc.pow_bits as nat, rd.pow_witness) == (
        f,
        ground(m, e, rc.pow_bits as nat, rd.pow_witness),
    ));
    if let Some((g, _)) = schedule::queries(
        m,
        f,
        rc.domain_bits as nat,
        rc.num_queries as nat,
    ) {
        law_sumcheck_work(
            m,
            schedule::absorb_all(m, schedule::draw_quad(m, g).0, rd.seed_sumcheck@),
            rd.sumcheck@,
            rc.folding_pow_bits as nat,
            rd.sumcheck@.len(),
        );
    }
}

proof fn lemma_rounds_work<St>(
    m: Machine<St>,
    st: St,
    cfgs: Seq<RoundConfig>,
    data: Seq<RoundData>,
    n: nat,
)
    ensures
        schedule::rounds(m, st, cfgs, data, n) matches Some((_, _, ok)) ==> ok == rounds_ground(
            m,
            st,
            cfgs,
            data,
            n,
        ),
    decreases n,
{
    if n > 0 {
        lemma_rounds_work(m, st, cfgs, data, (n - 1) as nat);
        if schedule::rounds(m, st, cfgs, data, n) is Some {
            let here = at_start(m, st, cfgs, data, n - 1);
            law_round_work(m, here, cfgs[n - 1], data[n - 1]);
        }
    }
}

/// Whatever the sponge, the transcript says that the proofs of work passed exactly
/// when every one did: each of the initial sumcheck's, each intermediate round's
/// own and those of its sumcheck, the final one and those of the final sumcheck.
pub proof fn law_every_proof_of_work_counts<St>(
    m: Machine<St>,
    st: St,
    cfg: TranscriptConfig,
    data: TranscriptData,
)
    ensures
        schedule::run(m, st, cfg, data) matches Some((_, drawn)) ==> drawn.pow_ok == {
            let middle = at_rounds(m, st, cfg, data);
            &&& sumcheck_ground(
                m,
                at_initial(m, st, data),
                data.initial_sumcheck@,
                cfg.initial_folding_pow_bits as nat,
            )
            &&& rounds_ground(m, middle, cfg.rounds@, data.rounds@, cfg.rounds@.len())
            &&& final_ground(
                m,
                at_start(m, middle, cfg.rounds@, data.rounds@, cfg.rounds@.len() as int),
                cfg,
                data,
            )
        },
{
    if let Some((_, drawn)) = schedule::run(m, st, cfg, data) {
        law_sumcheck_work(
            m,
            at_initial(m, st, data),
            data.initial_sumcheck@,
            cfg.initial_folding_pow_bits as nat,
            data.initial_sumcheck@.len(),
        );
        let middle = at_rounds(m, st, cfg, data);
        lemma_rounds_work(m, middle, cfg.rounds@, data.rounds@, cfg.rounds@.len());
        let last = at_start(m, middle, cfg.rounds@, data.rounds@, cfg.rounds@.len() as int);
        let e = schedule::absorb_quads(m, last, data.final_poly@);
        let f = past_witness(m, e, cfg.final_pow_bits as nat, data.final_pow_witness);
        assert(schedule::check_witness(
            m,
            e,
            cfg.final_pow_bits as nat,
            data.final_pow_witness,
        ) == (f, ground(m, e, cfg.final_pow_bits as nat, data.final_pow_witness)));
        if let Some((g, _)) = schedule::queries(
            m,
            f,
            cfg.final_domain_bits as nat,
            cfg.final_queries as nat,
        ) {
            law_sumcheck_work(
                m,
                schedule::absorb_all(m, g, data.seed_final_sumcheck@),
                data.final_sumcheck@,
                cfg.final_folding_pow_bits as nat,
                data.final_sumcheck@.len(),
            );
        }
    }
}

/// One proof of work that fails is enough for a proof to be turned down: an
/// intermediate round's witness that is not ground leaves nothing to accept.
pub proof fn law_unworked_rounds_are_turned_down<St>(
    m: Machine<St>,
    st: St,
    cfg: TranscriptConfig,
    data: TranscriptData,
    i: int,
    drawn: Draws,
)
    requires
        schedule::run(m, st, cfg, data) matches Some((_, d)) && d == drawn,
        0 <= i < cfg.rounds@.len(),
        !ground(
            m,
            at_round(
                m,
                at_start(m, at_rounds(m, st, cfg, data), cfg.rounds@, data.rounds@, i),
                data.rounds@[i],
            ),
            cfg.rounds@[i].pow_bits as nat,
            data.rounds@[i].pow_witness,
        ),
    ensures
        !drawn.pow_ok,
{
    law_every_proof_of_work_counts(m, st, cfg, data);
    let middle = at_rounds(m, st, cfg, data);
    assert(!round_ground(
        m,
        at_start(m, middle, cfg.rounds@, data.rounds@, i),
        cfg.rounds@[i],
        data.rounds@[i],
    ));
}

} // verus!

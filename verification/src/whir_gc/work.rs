//! The transcript's proofs of work over `GF(2^128)`: what it means that they all
//! passed.
use super::bytes;
use super::field::Elt;
use super::protocol;
use super::protocol::{Machine, ProofM, RoundM, SumcheckM};
use super::reference::{Config, RoundConfig};
use super::stark;
use super::stark_model;
use super::stark_model::StarkM;
use vstd::prelude::*;

verus! {

/// The eight bytes drawn right after `witness` is absorbed start with `bits` zero
/// bits.
#[verifier::opaque]
pub open spec fn ground<St>(m: Machine<St>, st: St, bits: nat, witness: Elt) -> bool {
    let low = bytes::bits_of_bytes(
        protocol::draw_all(m, protocol::absorb_elt(m, st, witness), 8).1,
    );
    forall|i: int| 0 <= i < bits && i < low.len() ==> !#[trigger] low[i]
}

/// The sponge after a witness, whether it passed or not.
pub open spec fn past_witness<St>(m: Machine<St>, st: St, bits: nat, witness: Elt) -> St {
    if bits == 0 {
        st
    } else {
        protocol::draw_all(m, protocol::absorb_elt(m, st, witness), 8).0
    }
}

/// The sponge as it meets the witness of sumcheck round `k`: the message absorbed.
pub open spec fn at_message<St>(
    m: Machine<St>,
    st: St,
    rounds: Seq<SumcheckM>,
    bits: nat,
    k: int,
) -> St {
    protocol::absorb_elt(
        m,
        protocol::absorb_elt(
            m,
            protocol::sumcheck_draws(m, st, rounds.take(k), bits).0,
            rounds[k].c0,
        ),
        rounds[k].c_inf,
    )
}

/// Every round of a sumcheck is ground.
pub open spec fn sumcheck_ground<St>(
    m: Machine<St>,
    st: St,
    rounds: Seq<SumcheckM>,
    bits: nat,
) -> bool {
    forall|k: int|
        0 <= k < rounds.len() ==> ground(
            m,
            #[trigger] at_message(m, st, rounds, bits, k),
            bits,
            rounds[k].witness,
        )
}

/// The sponge as it meets the witness of an intermediate round: the cap absorbed
/// and the out-of-domain samples answered.
pub open spec fn at_round<St>(m: Machine<St>, st: St, rd: RoundM) -> St {
    protocol::ood_draws(m, protocol::absorb_all(m, st, rd.cap), rd.ood_answers).0
}

/// An intermediate round that starts at `st` is ground: its own witness, and
/// every one of its sumcheck, which starts after the queries and the combination
/// randomness.
#[verifier::opaque]
pub open spec fn round_ground<St>(m: Machine<St>, st: St, rc: RoundConfig, rd: RoundM) -> bool {
    let s = at_round(m, st, rd);
    let past = past_witness(m, s, rc.pow_bits as nat, rd.pow_witness);
    let queried = protocol::stir_queries(
        m,
        past,
        rc.index_width as nat,
        rc.num_queries as nat,
    ).0;
    &&& ground(m, s, rc.pow_bits as nat, rd.pow_witness)
    &&& sumcheck_ground(
        m,
        protocol::absorb_all(m, protocol::draw_elt(m, queried).0, rd.seed_sumcheck),
        rd.sumcheck,
        rc.folding_pow_bits as nat,
    )
}

/// The sponge where round `i` starts.
pub open spec fn at_start<St>(
    m: Machine<St>,
    st: St,
    cfgs: Seq<RoundConfig>,
    rounds: Seq<RoundM>,
    i: int,
) -> St {
    protocol::rounds_draws(m, st, cfgs, rounds.take(i)).0
}

/// Every intermediate round is ground.
pub open spec fn rounds_ground<St>(
    m: Machine<St>,
    st: St,
    cfgs: Seq<RoundConfig>,
    rounds: Seq<RoundM>,
) -> bool {
    forall|i: int|
        0 <= i < rounds.len() ==> round_ground(
            m,
            #[trigger] at_start(m, st, cfgs, rounds, i),
            cfgs[i],
            rounds[i],
        )
}

/// The end of the transcript that starts at `st` is ground: the final witness,
/// met once the final polynomial is absorbed, and every one of the final
/// sumcheck.
pub open spec fn final_ground<St>(m: Machine<St>, st: St, cfg: Config, p: ProofM) -> bool {
    let s = protocol::absorb_elts(m, st, p.final_poly);
    let past = past_witness(m, s, cfg.final_pow_bits as nat, p.final_pow_witness);
    let queried = protocol::stir_queries(
        m,
        past,
        cfg.final_index_width as nat,
        cfg.final_queries as nat,
    ).0;
    &&& ground(m, s, cfg.final_pow_bits as nat, p.final_pow_witness)
    &&& sumcheck_ground(
        m,
        protocol::absorb_all(m, queried, p.seed_final_sumcheck),
        p.final_sumcheck,
        cfg.final_folding_pow_bits as nat,
    )
}

/// The sponge where the initial sumcheck starts.
pub open spec fn at_initial<St>(m: Machine<St>, st: St, cfg: Config, p: ProofM) -> St {
    let s1 = protocol::virtual_draws(m, st, p.initial_ood_answers, p.seed_virtual).0;
    let s2 = protocol::claim_draws(m, s1, p.openings, p.seed_claim, cfg.given_points).0;
    let s3 = protocol::draw_elt(m, protocol::absorb_all(m, s2, p.seed_whir_batching)).0;
    protocol::absorb_all(m, s3, p.seed_initial_sumcheck)
}

/// The sponge where the intermediate rounds start.
pub open spec fn at_rounds<St>(m: Machine<St>, st: St, cfg: Config, p: ProofM) -> St {
    protocol::sumcheck_draws(
        m,
        at_initial(m, st, cfg, p),
        p.initial_sumcheck,
        cfg.initial_folding_pow_bits as nat,
    ).0
}

proof fn lemma_ground<St>(m: Machine<St>, st: St, bits: nat, witness: Elt)
    requires
        bits <= 64,
    ensures
        protocol::check_witness(m, st, bits, witness) == (
            past_witness(m, st, bits, witness),
            ground(m, st, bits, witness),
        ),
{
    reveal(ground);
    if bits > 0 {
        let s = protocol::absorb_elt(m, st, witness);
        lemma_draw_len(m, s, 8);
        let all = bytes::bits_of_bytes(protocol::draw_all(m, s, 8).1);
        let low = all.take(bits as int);
        bytes::lemma_nat_of_zero(low);
        if ground(m, st, bits, witness) {
            assert forall|i: int| 0 <= i < low.len() implies !low[i] by {
                assert(!all[i]);
            }
        }
        if forall|i: int| 0 <= i < low.len() ==> !low[i] {
            assert forall|i: int| 0 <= i < bits && i < all.len() implies !#[trigger] all[i] by {
                assert(!low[i]);
            }
        }
    }
}

proof fn lemma_draw_len<St>(m: Machine<St>, st: St, n: nat)
    ensures
        protocol::draw_all(m, st, n).1.len() == n,
    decreases n,
{
    if n > 0 {
        lemma_draw_len(m, st, (n - 1) as nat);
    }
}

/// A sumcheck reports that its proofs of work passed exactly when each did.
pub proof fn law_sumcheck_work<St>(m: Machine<St>, st: St, rounds: Seq<SumcheckM>, bits: nat)
    requires
        bits <= 64,
    ensures
        protocol::sumcheck_draws(m, st, rounds, bits).2 == sumcheck_ground(m, st, rounds, bits),
    decreases rounds.len(),
{
    if rounds.len() > 0 {
        let front = rounds.drop_last();
        let n = front.len() as int;
        law_sumcheck_work(m, st, front, bits);
        assert(rounds.take(n) =~= front);
        lemma_ground(m, at_message(m, st, rounds, bits, n), bits, rounds[n].witness);
        assert forall|k: int| 0 <= k < n implies at_message(m, st, front, bits, k) == at_message(
            m,
            st,
            rounds,
            bits,
            k,
        ) && front[k] == rounds[k] by {
            assert(front.take(k) =~= rounds.take(k));
        }
        if sumcheck_ground(m, st, front, bits) && ground(
            m,
            at_message(m, st, rounds, bits, n),
            bits,
            rounds[n].witness,
        ) {
            assert forall|k: int| 0 <= k < rounds.len() implies ground(
                m,
                #[trigger] at_message(m, st, rounds, bits, k),
                bits,
                rounds[k].witness,
            ) by {
                if k < n {
                    assert(at_message(m, st, front, bits, k) == at_message(
                        m,
                        st,
                        rounds,
                        bits,
                        k,
                    ));
                }
            }
        }
        if sumcheck_ground(m, st, rounds, bits) {
            assert forall|k: int| 0 <= k < n implies ground(
                m,
                #[trigger] at_message(m, st, front, bits, k),
                bits,
                front[k].witness,
            ) by {
                assert(at_message(m, st, front, bits, k) == at_message(m, st, rounds, bits, k));
            }
        }
    }
}

/// The grinding bits of a round are read off eight bytes.
pub open spec fn readable(rc: RoundConfig) -> bool {
    rc.pow_bits <= 64 && rc.folding_pow_bits <= 64
}

/// An intermediate round reports that its proofs of work passed exactly when its
/// own did and each of its sumcheck's did.
pub proof fn law_round_work<St>(m: Machine<St>, st: St, rc: RoundConfig, rd: RoundM)
    requires
        readable(rc),
    ensures
        protocol::round_draws(m, st, rc, rd).2 == round_ground(m, st, rc, rd),
{
    reveal(round_ground);
    let s = at_round(m, st, rd);
    lemma_ground(m, s, rc.pow_bits as nat, rd.pow_witness);
    let past = past_witness(m, s, rc.pow_bits as nat, rd.pow_witness);
    let queried = protocol::stir_queries(
        m,
        past,
        rc.index_width as nat,
        rc.num_queries as nat,
    ).0;
    law_sumcheck_work(
        m,
        protocol::absorb_all(m, protocol::draw_elt(m, queried).0, rd.seed_sumcheck),
        rd.sumcheck,
        rc.folding_pow_bits as nat,
    );
}

#[verifier::rlimit(60)]
proof fn lemma_rounds_work<St>(
    m: Machine<St>,
    st: St,
    cfgs: Seq<RoundConfig>,
    rounds: Seq<RoundM>,
)
    requires
        forall|i: int| 0 <= i < rounds.len() ==> readable(#[trigger] cfgs[i]),
    ensures
        protocol::rounds_draws(m, st, cfgs, rounds).2 == rounds_ground(m, st, cfgs, rounds),
    decreases rounds.len(),
{
    if rounds.len() > 0 {
        let front = rounds.drop_last();
        let n = front.len() as int;
        lemma_rounds_work(m, st, cfgs, front);
        assert(rounds.take(n) =~= front);
        assert(readable(cfgs[n]));
        let here = at_start(m, st, cfgs, rounds, n);
        law_round_work(m, here, cfgs[n], rounds[n]);
        assert forall|k: int| 0 <= k < n implies at_start(m, st, cfgs, front, k) == at_start(
            m,
            st,
            cfgs,
            rounds,
            k,
        ) && front[k] == rounds[k] by {
            assert(front.take(k) =~= rounds.take(k));
        }
        if rounds_ground(m, st, cfgs, front) && round_ground(m, here, cfgs[n], rounds[n]) {
            assert forall|k: int| 0 <= k < rounds.len() implies round_ground(
                m,
                #[trigger] at_start(m, st, cfgs, rounds, k),
                cfgs[k],
                rounds[k],
            ) by {
                if k < n {
                    assert(at_start(m, st, cfgs, front, k) == at_start(m, st, cfgs, rounds, k));
                }
            }
        }
        if rounds_ground(m, st, cfgs, rounds) {
            assert forall|k: int| 0 <= k < n implies round_ground(
                m,
                #[trigger] at_start(m, st, cfgs, front, k),
                cfgs[k],
                front[k],
            ) by {
                assert(at_start(m, st, cfgs, front, k) == at_start(m, st, cfgs, rounds, k));
            }
        }
    }
}

/// Whatever the sponge, the transcript says that the proofs of work passed exactly
/// when every one did: each of the initial sumcheck's, each intermediate round's
/// own and those of its sumcheck, the final one and those of the final sumcheck.
pub proof fn law_every_proof_of_work_counts<St>(m: Machine<St>, st: St, cfg: Config, p: ProofM)
    requires
        cfg.initial_folding_pow_bits <= 64,
        cfg.final_pow_bits <= 64,
        cfg.final_folding_pow_bits <= 64,
        forall|i: int| 0 <= i < p.rounds.len() ==> readable(#[trigger] cfg.rounds@[i]),
    ensures
        protocol::transcript(m, st, cfg, p).1.pow_ok == {
            let middle = at_rounds(m, st, cfg, p);
            &&& sumcheck_ground(
                m,
                at_initial(m, st, cfg, p),
                p.initial_sumcheck,
                cfg.initial_folding_pow_bits as nat,
            )
            &&& rounds_ground(m, middle, cfg.rounds@, p.rounds)
            &&& final_ground(
                m,
                at_start(m, middle, cfg.rounds@, p.rounds, p.rounds.len() as int),
                cfg,
                p,
            )
        },
{
    law_sumcheck_work(
        m,
        at_initial(m, st, cfg, p),
        p.initial_sumcheck,
        cfg.initial_folding_pow_bits as nat,
    );
    let middle = at_rounds(m, st, cfg, p);
    lemma_rounds_work(m, middle, cfg.rounds@, p.rounds);
    assert(p.rounds.take(p.rounds.len() as int) =~= p.rounds);
    let last = at_start(m, middle, cfg.rounds@, p.rounds, p.rounds.len() as int);
    let s = protocol::absorb_elts(m, last, p.final_poly);
    lemma_ground(m, s, cfg.final_pow_bits as nat, p.final_pow_witness);
    let past = past_witness(m, s, cfg.final_pow_bits as nat, p.final_pow_witness);
    let queried = protocol::stir_queries(
        m,
        past,
        cfg.final_index_width as nat,
        cfg.final_queries as nat,
    ).0;
    law_sumcheck_work(
        m,
        protocol::absorb_all(m, queried, p.seed_final_sumcheck),
        p.final_sumcheck,
        cfg.final_folding_pow_bits as nat,
    );
}

/// The sponge as it meets the witness of zerocheck round `k`: the message absorbed.
pub open spec fn at_zerocheck<St>(
    m: Machine<St>,
    st: St,
    claimed: Elt,
    polys: Seq<Seq<Elt>>,
    witnesses: Seq<Elt>,
    bits: nat,
    k: int,
) -> St {
    protocol::absorb_elts(
        m,
        stark_model::zerocheck_draws(m, st, claimed, polys.take(k), witnesses, bits).0,
        polys[k],
    )
}

proof fn lemma_zerocheck_work<St>(
    m: Machine<St>,
    st: St,
    claimed: Elt,
    polys: Seq<Seq<Elt>>,
    witnesses: Seq<Elt>,
    bits: nat,
)
    requires
        bits <= 64,
    ensures
        stark_model::zerocheck_draws(m, st, claimed, polys, witnesses, bits).3 == forall|k: int|
            0 <= k < polys.len() ==> ground(
                m,
                #[trigger] at_zerocheck(m, st, claimed, polys, witnesses, bits, k),
                bits,
                witnesses[k],
            ),
    decreases polys.len(),
{
    if polys.len() > 0 {
        let front = polys.drop_last();
        let n = front.len() as int;
        lemma_zerocheck_work(m, st, claimed, front, witnesses, bits);
        assert(polys.take(n) =~= front);
        let last = at_zerocheck(m, st, claimed, polys, witnesses, bits, n);
        lemma_ground(m, last, bits, witnesses[n]);
        assert forall|k: int| 0 <= k < n implies at_zerocheck(
            m,
            st,
            claimed,
            front,
            witnesses,
            bits,
            k,
        ) == at_zerocheck(m, st, claimed, polys, witnesses, bits, k) by {
            assert(front.take(k) =~= polys.take(k));
        }
        let all = forall|k: int|
            0 <= k < polys.len() ==> ground(
                m,
                #[trigger] at_zerocheck(m, st, claimed, polys, witnesses, bits, k),
                bits,
                witnesses[k],
            );
        let most = forall|k: int|
            0 <= k < n ==> ground(
                m,
                #[trigger] at_zerocheck(m, st, claimed, front, witnesses, bits, k),
                bits,
                witnesses[k],
            );
        if most && ground(m, last, bits, witnesses[n]) {
            assert forall|k: int| 0 <= k < polys.len() implies ground(
                m,
                #[trigger] at_zerocheck(m, st, claimed, polys, witnesses, bits, k),
                bits,
                witnesses[k],
            ) by {
                if k < n {
                    assert(at_zerocheck(m, st, claimed, front, witnesses, bits, k)
                        == at_zerocheck(m, st, claimed, polys, witnesses, bits, k));
                }
            }
        }
        if all {
            assert forall|k: int| 0 <= k < n implies ground(
                m,
                #[trigger] at_zerocheck(m, st, claimed, front, witnesses, bits, k),
                bits,
                witnesses[k],
            ) by {
                assert(at_zerocheck(m, st, claimed, front, witnesses, bits, k) == at_zerocheck(
                    m,
                    st,
                    claimed,
                    polys,
                    witnesses,
                    bits,
                    k,
                ));
            }
        }
    }
}

/// The layers say that their proofs of work passed exactly when each round of the
/// zerocheck was ground.
pub proof fn law_every_zerocheck_round_is_ground<St>(
    m: Machine<St>,
    st: St,
    cfg: stark::Config,
    p: StarkM,
    alpha: Elt,
    beta: Elt,
    tau: Seq<Elt>,
)
    requires
        cfg.pow_bits <= 64,
    ensures
        stark_model::prefix_after_tau(m, st, cfg, p, alpha, beta, tau).1.pow_ok == {
            let s = protocol::absorb_elt(
                m,
                protocol::absorb_all(m, st, cfg.seeds.generic_degree@),
                p.claimed_sum,
            );
            forall|k: int|
                0 <= k < p.round_polys.len() ==> ground(
                    m,
                    #[trigger] at_zerocheck(
                        m,
                        s,
                        p.claimed_sum,
                        p.round_polys,
                        p.pow_witnesses,
                        cfg.pow_bits as nat,
                        k,
                    ),
                    cfg.pow_bits as nat,
                    p.pow_witnesses[k],
                )
        },
{
    let s = protocol::absorb_elt(
        m,
        protocol::absorb_all(m, st, cfg.seeds.generic_degree@),
        p.claimed_sum,
    );
    lemma_zerocheck_work(
        m,
        s,
        p.claimed_sum,
        p.round_polys,
        p.pow_witnesses,
        cfg.pow_bits as nat,
    );
}

} // verus!

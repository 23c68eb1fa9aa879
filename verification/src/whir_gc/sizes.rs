//! The verifier behind a test of the proof's sizes: nothing is asked of the proof
//! before it is looked at.
use super::protocol;
use super::reference;
use super::reference::{Challenges, Config, Data, Error, Opening, Verified};
use vstd::arithmetic::power2::pow2;
use vstd::prelude::*;

verus! {

fn is_narrow(bits: usize) -> (r: bool)
    ensures
        r == reference::narrow(bits),
{
    bits < 64 && bits < usize::BITS as usize
}

/// Whether `n` is `2^k`.
fn is_two_to(n: usize, k: usize) -> (r: bool)
    ensures
        r == (n == pow2(k as nat)),
{
    if k < usize::BITS as usize {
        n == reference::two_to(k)
    } else {
        proof {
            vstd::layout::unsigned_int_max_values();
            let b = usize::BITS as nat;
            if b < k {
                vstd::arithmetic::power2::lemma_pow2_strictly_increases(b, k as nat);
            }
        }
        false
    }
}

/// Whether the proof has the messages that the transcript reads.
fn is_transcribable(cfg: &Config, d: &Data) -> (r: bool)
    ensures
        r == reference::transcribable(*cfg, *d),
{
    if d.initial_ood_answers.len() != cfg.commitment_ood_samples || d.seed_virtual.len()
        != cfg.commitment_ood_samples || d.seed_claim.len() != d.openings.len()
        || d.initial_sumcheck.len() != cfg.initial_folding || d.rounds.len() != cfg.rounds.len()
        || d.final_sumcheck.len() != cfg.final_sumcheck_rounds {
        return false;
    }
    if !is_narrow(cfg.initial_folding_pow_bits) || !is_narrow(cfg.final_pow_bits) || !is_narrow(
        cfg.final_index_width,
    ) || !is_narrow(cfg.final_folding_pow_bits) {
        return false;
    }
    let mut i: usize = 0;
    while i < d.rounds.len()
        invariant
            i <= d.rounds@.len() == cfg.rounds@.len(),
            forall|j: int|
                0 <= j < i ==> reference::round_transcribable(
                    #[trigger] cfg.rounds@[j],
                    #[trigger] d.rounds@[j],
                ),
        decreases d.rounds@.len() - i,
    {
        let rc = &cfg.rounds[i];
        let rd = &d.rounds[i];
        if rd.ood_answers.len() != rc.ood_samples || rd.sumcheck.len() != rc.folding || !is_narrow(
            rc.pow_bits,
        ) || !is_narrow(rc.index_width) || !is_narrow(rc.folding_pow_bits) {
            assert(!reference::round_transcribable(cfg.rounds@[i as int], d.rounds@[i as int]));
            return false;
        }
        i = i + 1;
    }
    true
}

/// Whether the drawn points of the claims have the polynomial's arity.
fn is_claims_shaped(cfg: &Config, d: &Data) -> (r: bool)
    requires
        !cfg.given_points,
    ensures
        r == reference::claims_shaped(*cfg, *d, Seq::empty()),
{
    let mut i: usize = 0;
    while i < cfg.claims.len() && i < d.openings.len()
        invariant
            !cfg.given_points,
            i <= cfg.claims@.len(),
            i <= d.openings@.len(),
            forall|k: int, j: int|
                0 <= k < i && 0 <= j < cfg.claims@[k].selectors@.len() ==> (
                #[trigger] cfg.claims@[k].selectors@[j])@.len() + cfg.claims@[k].row_vars
                    == cfg.num_variables,
        decreases cfg.claims@.len() - i,
    {
        let shape = &cfg.claims[i];
        let mut j: usize = 0;
        while j < shape.selectors.len()
            invariant
                !cfg.given_points,
                i < cfg.claims@.len(),
                i < d.openings@.len(),
                shape == cfg.claims@[i as int],
                j <= shape.selectors@.len(),
                forall|k: int|
                    0 <= k < j ==> (#[trigger] shape.selectors@[k])@.len() + shape.row_vars
                        == cfg.num_variables,
            decreases shape.selectors@.len() - j,
        {
            if cfg.num_variables < shape.row_vars || shape.selectors[j].len() != cfg.num_variables
                - shape.row_vars {
                proof {
                    let bad = cfg.claims@[i as int];
                    assert(bad.selectors@[j as int]@.len() + bad.row_vars != cfg.num_variables);
                }
                return false;
            }
            j = j + 1;
        }
        i = i + 1;
    }
    true
}

/// Whether every row of an opening has `2^k` elements.
fn is_measured(o: &Opening, k: usize) -> (r: bool)
    ensures
        r == forall|q: int|
            0 <= q < o.rows@.len() ==> (#[trigger] o.rows@[q])@.len() == pow2(k as nat),
{
    let mut q: usize = 0;
    while q < o.rows.len()
        invariant
            q <= o.rows@.len(),
            forall|j: int| 0 <= j < q ==> (#[trigger] o.rows@[j])@.len() == pow2(k as nat),
        decreases o.rows@.len() - q,
    {
        let n = o.rows[q].len();
        if !is_two_to(n, k) {
            assert(o.rows@[q as int]@.len() == n);
            return false;
        }
        q = q + 1;
    }
    true
}

/// Whether a cap that holds whole roots holds a power of two of them, and no more
/// than leaves.
fn is_cap_shaped(cap: &[u8], width: usize) -> (r: bool)
    ensures
        r == (reference::whole_cap(cap@) ==> protocol::cap_shaped(cap@, width as nat)),
{
    if cap.len() == 0 || cap.len() % 32 != 0 {
        return true;
    }
    let roots = cap.len() / 32;
    let h = reference::floor_log2(roots);
    is_two_to(roots, h) && h <= width
}

/// Round `i`'s rows and the cap before it.
spec fn round_sized(cfg: Config, d: Data, i: nat) -> bool {
    let o = reference::opening_at(d, i);
    let cap = protocol::cap_before(d.messages(), i);
    &&& forall|q: int|
        0 <= q < o.rows@.len() ==> (#[trigger] o.rows@[q])@.len() == pow2(
            reference::folding_len(d, i),
        )
    &&& reference::whole_cap(cap) ==> protocol::cap_shaped(cap, protocol::width_of(cfg, i))
}

fn is_round_sized(cfg: &Config, d: &Data, i: usize) -> (r: bool)
    requires
        cfg.rounds@.len() == d.rounds@.len(),
        i <= d.rounds@.len(),
    ensures
        r == round_sized(*cfg, *d, i as nat),
{
    let n = d.rounds.len();
    let (cap, k) = if i == 0 {
        (d.cap.as_slice(), d.initial_sumcheck.len())
    } else {
        (d.rounds[i - 1].cap.as_slice(), d.rounds[i - 1].sumcheck.len())
    };
    assert(cap@ == protocol::cap_before(d.messages(), i as nat));
    let (o, width) = if i < n {
        (&d.rounds[i].opening, cfg.rounds[i].index_width)
    } else {
        (&d.final_opening, cfg.final_index_width)
    };
    proof {
        assert(*o == reference::opening_at(*d, i as nat));
        assert(k == reference::folding_len(*d, i as nat));
        assert(width == protocol::width_of(*cfg, i as nat));
    }
    let rows_ok = is_measured(o, k);
    let cap_ok = is_cap_shaped(cap, width);
    rows_ok && cap_ok
}

/// Whether the randomness covers the polynomials' variables.
fn is_covered(cfg: &Config, d: &Data) -> (r: bool)
    ensures
        ({
            let all = reference::randomness_len(*d, d.rounds@.len()) + d.final_sumcheck@.len();
            r == (cfg.num_variables <= all && forall|i: int|
                0 <= i < cfg.rounds@.len() ==> (#[trigger] cfg.rounds@[i]).num_variables <= all)
        }),
{
    let ghost all = reference::randomness_len(*d, d.rounds@.len()) + d.final_sumcheck@.len();
    let mut sum: usize = d.initial_sumcheck.len();
    let mut i: usize = 0;
    while i < d.rounds.len()
        invariant
            i <= d.rounds@.len(),
            sum == usize::MAX || sum == reference::randomness_len(*d, i as nat),
            sum <= reference::randomness_len(*d, i as nat),
        decreases d.rounds@.len() - i,
    {
        let more = d.rounds[i].sumcheck.len();
        sum = if sum > usize::MAX - more {
            usize::MAX
        } else {
            sum + more
        };
        i = i + 1;
    }
    let last = d.final_sumcheck.len();
    sum = if sum > usize::MAX - last {
        usize::MAX
    } else {
        sum + last
    };
    if cfg.num_variables > sum {
        return false;
    }
    let mut j: usize = 0;
    while j < cfg.rounds.len()
        invariant
            j <= cfg.rounds@.len(),
            all == reference::randomness_len(*d, d.rounds@.len()) + d.final_sumcheck@.len(),
            sum == usize::MAX || sum == all,
            sum <= all,
            forall|k: int| 0 <= k < j ==> (#[trigger] cfg.rounds@[k]).num_variables <= all,
        decreases cfg.rounds@.len() - j,
    {
        if cfg.rounds[j].num_variables > sum {
            assert(cfg.rounds@[j as int].num_variables > all);
            return false;
        }
        j = j + 1;
    }
    true
}

/// Whether the rows and caps of every round have their sizes.
fn are_rounds_sized(cfg: &Config, d: &Data) -> (r: bool)
    requires
        cfg.rounds@.len() == d.rounds@.len(),
    ensures
        r == forall|i: nat| i <= d.rounds@.len() ==> #[trigger] round_sized(*cfg, *d, i),
{
    let n = d.rounds.len();
    let mut i: usize = 0;
    while i < n
        invariant
            n == d.rounds@.len() == cfg.rounds@.len(),
            i <= n,
            forall|j: nat| j < i ==> #[trigger] round_sized(*cfg, *d, j),
        decreases n - i,
    {
        if !is_round_sized(cfg, d, i) {
            return false;
        }
        i = i + 1;
    }
    is_round_sized(cfg, d, n)
}

/// Whether the proof has the sizes that the configuration asks for.
fn is_shaped(cfg: &Config, d: &Data) -> (r: bool)
    requires
        !cfg.given_points,
    ensures
        r == reference::shaped(*cfg, *d, Seq::empty()),
{
    if !is_transcribable(cfg, d) || !is_claims_shaped(cfg, d) || !is_covered(cfg, d) || !is_two_to(
        d.final_poly.len(),
        d.final_sumcheck.len(),
    ) {
        return false;
    }
    let r = are_rounds_sized(cfg, d);
    proof {
        let n = d.rounds@.len();
        if r {
            assert forall|j: nat, q: int|
                j <= n && 0 <= q < reference::opening_at(*d, j).rows@.len() implies (
            #[trigger] reference::opening_at(*d, j).rows@[q])@.len() == pow2(
                reference::folding_len(*d, j),
            ) by {
                assert(round_sized(*cfg, *d, j));
            }
            assert forall|j: nat| j <= n implies (reference::whole_cap(
                #[trigger] protocol::cap_before(d.messages(), j),
            ) ==> protocol::cap_shaped(
                protocol::cap_before(d.messages(), j),
                protocol::width_of(*cfg, j),
            )) by {
                assert(round_sized(*cfg, *d, j));
            }
        } else if reference::shaped(*cfg, *d, Seq::empty()) {
            let i = choose|i: nat| i <= n && !(#[trigger] round_sized(*cfg, *d, i));
            lemma_sized(*cfg, *d, i);
        }
    }
    r
}

/// A shaped proof's rounds have their sizes.
proof fn lemma_sized(cfg: Config, d: Data, i: nat)
    requires
        i <= d.rounds@.len(),
        reference::shaped(cfg, d, Seq::empty()),
    ensures
        round_sized(cfg, d, i),
{
    let o = reference::opening_at(d, i);
    assert forall|q: int| 0 <= q < o.rows@.len() implies (#[trigger] o.rows@[q])@.len() == pow2(
        reference::folding_len(d, i),
    ) by {
        assert(reference::opening_at(d, i).rows@[q]@.len() == pow2(reference::folding_len(d, i)));
    }
}

/// The verifier where the proof has the sizes that the configuration asks for, and
/// nothing where it has not.
pub fn checked_verify(cfg: &Config, d: &Data) -> (r: Option<Result<Verified, Error>>)
    requires
        !cfg.given_points,
    ensures
        r is Some <==> reference::shaped(*cfg, *d, Seq::empty()),
        r matches Some(v) ==> exists|ch: Challenges|
            ch.draws() == reference::transcript_draws(*cfg, *d) && reference::challenges_shaped(
                *cfg,
                *d,
                ch,
            ) && #[trigger] reference::verdict(*cfg, *d, ch, Seq::empty(), v),
{
    if !is_shaped(cfg, d) {
        return None;
    }
    proof {
        assert forall|ch: Challenges|
            ch.draws() == reference::transcript_draws(*cfg, *d) && reference::challenges_shaped(
                *cfg,
                *d,
                ch,
            ) implies #[trigger] reference::verifiable(*cfg, *d, ch, Seq::empty()) by {
            reference::law_shaped_fits(*cfg, *d, ch, Seq::empty());
        }
    }
    Some(reference::verify(cfg, d))
}

} // verus!

//! The prime-field challenger against Plonky3's `DuplexChallenger`.

use bitcoin_stark_verifier::whir::reference::Challenger;
use bitcoin_stark_verifier::whir::sponge::{duplexing, squeeze};
use p3_challenger::{CanObserve, CanSample, CanSampleBits, DuplexChallenger};
use p3_field::extension::BinomialExtensionField;
use p3_field::{BasedVectorSpace, PrimeField32};
use p3_koala_bear::{default_koalabear_poseidon2_16, KoalaBear, Poseidon2KoalaBear};

type F = KoalaBear;
type EF = BinomialExtensionField<F, 4>;
type Perm = Poseidon2KoalaBear<16>;
type Ch = DuplexChallenger<F, Perm, 16, 8>;

fn f(x: u32) -> F {
    F::new(x)
}
fn u(x: F) -> u32 {
    x.as_canonical_u32()
}

/// The two challengers agree sample for sample over a schedule that exercises
/// every boundary: observes shorter than, equal to and longer than the rate,
/// samples that drain a permutation and force the next, EF samples that straddle
/// a refill, and query bits -- with more observes afterwards.
#[test]
fn reference_challenger_matches_plonky3() {
    let mut plonky = Ch::new(default_koalabear_poseidon2_16());
    let mut mirror = Challenger::new();

    let observe = |p: &mut Ch, m: &mut Challenger, xs: &[u32]| {
        for &x in xs {
            p.observe(f(x));
        }
        m.observe_slice(xs);
    };
    let field = |p: &mut Ch, m: &mut Challenger, tag: &str| {
        let a: F = p.sample();
        let b = m.sample();
        assert_eq!(u(a), b, "field sample disagreed ({tag})");
    };
    let ext = |p: &mut Ch, m: &mut Challenger, tag: &str| {
        let a: EF = p.sample();
        let c: &[F] = a.as_basis_coefficients_slice();
        let ac: Vec<u32> = c.iter().map(|x| u(*x)).collect();
        assert_eq!(ac, m.sample_ef().to_vec(), "EF sample disagreed ({tag})");
    };
    let bits = |p: &mut Ch, m: &mut Challenger, n: usize, tag: &str| {
        let a: usize = p.sample_bits(n);
        assert_eq!(a as u32, m.sample_bits(n), "bit sample disagreed ({tag})");
    };

    observe(&mut plonky, &mut mirror, &[1, 2, 3]); // short of the rate
    field(&mut plonky, &mut mirror, "after 3");
    ext(&mut plonky, &mut mirror, "straddles the first refill");
    observe(&mut plonky, &mut mirror, &(0..8).collect::<Vec<_>>()); // exactly the rate
    ext(&mut plonky, &mut mirror, "after a full-rate observe");
    field(&mut plonky, &mut mirror, "mid-buffer");
    bits(&mut plonky, &mut mirror, 6, "query index");
    observe(&mut plonky, &mut mirror, &(100..111).collect::<Vec<_>>()); // longer than the rate
    for i in 0..10 {
        field(&mut plonky, &mut mirror, &format!("drain {i}"));
    }
    ext(&mut plonky, &mut mirror, "final");

    // And the states themselves line up, so nothing diverged silently.
    let ps: Vec<u32> = plonky.sponge_state.iter().map(|x| u(*x)).collect();
    assert_eq!(ps, mirror.state().to_vec(), "sponge states diverged");
}

/// One permutation's rate yields two EFs, read from the end of the rate.
#[test]
fn a_permutation_yields_two_elements_from_the_end_of_the_rate() {
    let mut ch = Challenger::new();
    ch.observe_slice(&(1..=8).collect::<Vec<_>>()); // a full-rate observe -> one permute
    let state = ch.state(); // rate[0..8] is this permutation's output
    assert_eq!(ch.sample_ef(), [state[7], state[6], state[5], state[4]]);
    assert_eq!(ch.sample_ef(), [state[3], state[2], state[1], state[0]]);
    assert_eq!(ch.state(), state);
    ch.sample();
    assert_ne!(ch.state(), state);
}

/// A full absorption followed by a squeeze is two permutations of the state.
#[test]
fn duplexing_and_squeezing_are_the_challengers_permutations() {
    let mut ch = Challenger::new();
    let mut state = [0u32; 16];
    ch.observe_slice(&[5, 6, 7, 8, 9, 10, 11, 12]);
    duplexing(&mut state, &[5, 6, 7, 8, 9, 10, 11, 12]);
    assert_eq!(ch.state(), state);
    for _ in 0..9 {
        ch.sample();
    }
    let out = squeeze(&mut state);
    assert_eq!(ch.state(), state);
    assert_eq!(out[..], state[..8]);
}

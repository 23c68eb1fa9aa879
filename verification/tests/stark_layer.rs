//! The multi-STARK layer's arithmetic.

use bitcoin_stark_verifier::whir_gc::field::F;
use bitcoin_stark_verifier::whir_gc::stark::{node, round_poly_at, Tensor};

/// The simplified equality step equals the four-scaling form.
#[test]
fn equality_factor_matches_the_four_scaling_form() {
    let a = F::from_repr(0x1234_5678_9abc_def0_0fed_cba9_8765_4321);
    let b = F::from_repr(0x0f0f_1234_5678_ffff_0000_1111_2222_3333);
    let mut e = Tensor::one();
    for i in 0..3 {
        let (x, y) = (a.times(node(i + 2)), b.plus(node(i + 5)));
        let agree = e.scale_columns(x).scale_rows(y);
        let four = e.scale_columns(F::one().plus(x)).scale_rows(F::one().plus(y)).add(&agree);
        let two = e.mul_equality_factor(x, y);
        assert_eq!(two, four);
        e = two;
    }
}

/// The Lagrange form of the round polynomial through five nodes.
#[test]
fn round_poly_interpolates_its_nodes() {
    let evals = [node(11), node(22), node(33), node(44)];
    let running = node(99);
    let full = [evals[0], running.plus(evals[0]), evals[1], evals[2], evals[3]];
    for (j, &f) in full.iter().enumerate() {
        assert_eq!(round_poly_at(&evals, running, node(j)), f);
    }
}

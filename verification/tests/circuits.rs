//! Gates, garbling and the field tower.

use bitcoin_stark_verifier::whir_gc::garble::{evaluate, garble};
use bitcoin_stark_verifier::whir_gc::gates::{CircuitAdapter, CircuitTrait, GateCounts, Operation, S};
use bitcoin_stark_verifier::whir_gc::tower;
use p3_binary_field::{
    BinaryField128, BinaryField16, BinaryField2, BinaryField32, BinaryField4, BinaryField64,
    BinaryField8, Gf2, TowerLevel,
};
use rand::{Rng, SeedableRng};
use rand_chacha::ChaCha20Rng;

/// The wires of a builder are its constants, its inputs and one per gate, and every
/// gate reads two different older wires.
#[test]
fn gates_are_in_order() {
    let mut b = CircuitAdapter::default();
    let x: [usize; 8] = b.fresh();
    let y: [usize; 8] = b.fresh();
    let square = tower::square(&mut b, &x);
    let product = tower::mul(&mut b, &square, &y);
    tower::add(&mut b, &product, &x);
    let gates = b.get_gates();
    assert_eq!(b.next_wire(), 2 + 16 + gates.len());
    let mut last = 17;
    for gate in gates {
        let (Operation::Add(d, x, y) | Operation::Mul(d, x, y) | Operation::Or(d, x, y)) = *gate;
        assert!(last < d && 0 < x && x < d && 0 < y && y < d && x != y);
        last = d;
    }
}

/// A witness read back is the value's low bits.
#[test]
fn a_witness_reads_back() {
    let v: u128 = 0xfedc_ba98_7654_3210_0f1e_2d3c_4b5a_6978;
    for bits in [0usize, 1, 7, 64, 127, 128] {
        let wires: Vec<usize> = (0..bits).collect();
        let low = if bits < 128 { v % (1 << bits) } else { v };
        assert_eq!(tower::read(&tower::witness_bits(v, bits), &wires), low);
    }
}

/// The folding rules, the evaluator and the label PRF.
#[test]
fn folds_evaluates_and_hashes() {
    let mut b = CircuitAdapter::default();
    let x = b.fresh_one();
    let y = b.fresh_one();
    assert_eq!(b.xor_wire(x, x), 0);
    assert_eq!(b.xor_wire(x, 0), x);
    assert_eq!(b.and_wire(x, 1), x);
    assert_eq!(b.and_wire(x, 0), 0);
    assert_eq!(b.or_wire(x, 1), 1);
    assert_eq!(b.or_wire(0, y), y);
    let xy = b.and_wire(x, y);
    let s = b.xor_wire(xy, y);
    assert_eq!(b.gate_counts(), GateCounts { direct_and: 1, direct_xor: 1, direct_or: 0 });
    for bits in 0..4u8 {
        let w = [bits & 1 == 1, bits & 2 == 2];
        let v = b.eval_gates(&w);
        assert_eq!(v[s], (w[0] & w[1]) ^ w[1]);
    }
    let l = S::from_slice(&[7u8; 16]);
    let mut input = [7u8; 20];
    input[16..].copy_from_slice(&5u32.to_le_bytes());
    assert_eq!(l.hash_ext(5).0[..], blake3::hash(&input).as_bytes()[..16]);
    assert_ne!(S::random(), S::random());
}

/// A small circuit, garbled and evaluated on every input: the label
/// obtained is the label of the value computed.
#[test]
fn labels_follow_values_on_a_small_circuit() {
    let mut b = CircuitAdapter::default();
    let x = b.fresh_one();
    let y = b.fresh_one();
    let z = b.fresh_one();
    let xy = b.and_wire(x, y);
    let s = b.xor_wire(xy, z);
    let out = b.or_wire(s, x);
    let g = garble(&b, 3, out);
    assert_eq!(g.ciphertexts.len(), 2);
    assert_eq!(g.ciphertext_bytes(), 32);
    for bits in 0..8u8 {
        let w = [bits & 1 == 1, bits & 2 == 2, bits & 4 == 4];
        let e = evaluate(&b, &g, &w);
        let expect = ((w[0] & w[1]) ^ w[2]) | w[0];
        assert_eq!(e.value, expect);
        assert_eq!(e.label, if expect { g.output0 ^ g.delta } else { g.output0 }, "witness {w:?}");
    }
}

/// Every level's multiply, square and `α` against the field's own, on random elements.
fn check_level<L: TowerLevel + core::ops::Mul<Output = L> + Copy>(
    bits: usize,
    from: fn(u128) -> L,
    to: fn(L) -> u128,
    rng: &mut ChaCha20Rng,
    rounds: usize,
) -> usize {
    let mut ands = 0;
    for _ in 0..rounds {
        let a: u128 = rng.random::<u128>() & (u128::MAX >> (128 - bits));
        let b_: u128 = rng.random::<u128>() & (u128::MAX >> (128 - bits));
        let (fa, fb) = (from(a), from(b_));

        let mut bld = CircuitAdapter::default();
        let x = tower::fresh(&mut bld, bits);
        let y = tower::fresh(&mut bld, bits);
        let prod = tower::mul(&mut bld, &x, &y);
        let sq = tower::square(&mut bld, &x);
        let al = tower::mul_alpha(&mut bld, &x);
        ands = bld.gate_counts().direct_and;

        let mut witness = tower::witness_bits(a, bits);
        witness.extend(tower::witness_bits(b_, bits));
        let wires = bld.eval_gates(&witness);
        assert_eq!(tower::read(&wires, &prod), to(fa * fb), "{bits}-bit product");
        assert_eq!(tower::read(&wires, &sq), to(fa * fa), "{bits}-bit square");
        assert_eq!(tower::read(&wires, &al), to(fa.mul_alpha()), "{bits}-bit alpha");
    }
    ands
}

#[test]
fn every_level_matches_plonky3() {
    let mut rng = ChaCha20Rng::seed_from_u64(7);
    let ands = [
        check_level::<Gf2>(1, |v| Gf2::from_repr(v as u8), |x| x.to_repr() as u128, &mut rng, 8),
        check_level::<BinaryField2>(2, |v| BinaryField2::from_repr(v as u8), |x| x.to_repr() as u128, &mut rng, 16),
        check_level::<BinaryField4>(4, |v| BinaryField4::from_repr(v as u8), |x| x.to_repr() as u128, &mut rng, 32),
        check_level::<BinaryField8>(8, |v| BinaryField8::from_repr(v as u8), |x| x.to_repr() as u128, &mut rng, 32),
        check_level::<BinaryField16>(16, |v| BinaryField16::from_repr(v as u16), |x| x.to_repr() as u128, &mut rng, 32),
        check_level::<BinaryField32>(32, |v| BinaryField32::from_repr(v as u32), |x| x.to_repr() as u128, &mut rng, 32),
        check_level::<BinaryField64>(64, |v| BinaryField64::from_repr(v as u64), |x| x.to_repr() as u128, &mut rng, 32),
        check_level::<BinaryField128>(128, |v| BinaryField128::from_repr(v), |x| x.to_repr(), &mut rng, 32),
    ];
    // The AND count of one multiplication (square and alpha add none): 3^k at 2^k bits.
    for (k, &a) in ands.iter().enumerate() {
        assert_eq!(a, 3usize.pow(k as u32), "AND gates at {} bits", 1 << k);
    }
}

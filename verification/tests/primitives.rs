//! The library's primitives against the crates they stand on.

use bitcoin_stark_verifier::whir_gc::blake3::hash_wires;
use bitcoin_stark_verifier::whir_gc::bytes::{elem_bytes, elem_of_bytes, low_bits};
use bitcoin_stark_verifier::whir_gc::field::F;
use bitcoin_stark_verifier::whir_gc::gates::{random_bytes, CircuitAdapter, CircuitTrait};
use bitcoin_stark_verifier::whir_gc::pruned::compress;
use bitcoin_stark_verifier::whir_gc::reference::{leaf, Challenger, Sponge};
use bitcoin_stark_verifier::whir_gc::tower;
use p3_binary_field::{BinaryField128, TowerLevel};
use p3_field::{Field, PrimeCharacteristicRing};

const A: u128 = 0x1234_5678_9abc_def0_0fed_cba9_8765_4321;
const B: u128 = 0xc0ff_ee00_dead_beef_0123_4567_89ab_cdef;

/// Sums, products, squares, inverses and powers are the tower field's.
#[test]
fn the_field_is_the_binary_tower() {
    let (x, y) = (F::from_repr(A), F::from_repr(B));
    let (p, q) = (BinaryField128::from_repr(A), BinaryField128::from_repr(B));
    assert_eq!(x.plus(y).to_repr(), A ^ B);
    assert_eq!(x.times(y).to_repr(), (p * q).to_repr());
    assert_eq!(x.square().to_repr(), p.square().to_repr());
    assert_eq!(x.square(), x.times(x));
    let inv = x.inverse().expect("a nonzero element has an inverse");
    assert_eq!(inv.to_repr(), p.inverse().to_repr());
    assert_eq!(x.times(inv), F::one());
    assert_eq!(F::zero().inverse(), None);
    assert_eq!(x.power(5), x.square().square().times(x));
    assert_eq!(x.power(0), F::one());
}

/// `b_0 = 1` and `b_{i+1}^2 + b_{i+1} = b_i`.
#[test]
fn the_basis_is_a_cantor_basis() {
    assert_eq!(F::cantor_basis(0), F::one());
    for i in 0..12 {
        let next = F::cantor_basis(i + 1);
        assert_eq!(next.square().plus(next), F::cantor_basis(i));
    }
}

/// The same for every vector, and the root is the one with its lowest bit clear.
#[test]
fn every_basis_vector_is_the_even_root_of_the_one_before() {
    for i in 1..128 {
        let v = F::cantor_basis(i);
        assert_eq!(v.square().plus(v), F::cantor_basis(i - 1));
        assert_eq!(v.to_repr() & 1, 0);
    }
}

/// One AND per full adder: a block costs its additions at most.
#[test]
fn a_compression_costs_its_additions() {
    for (len, compressions) in [(0usize, 1usize), (64, 1), (65, 2), (1024, 16), (1025, 18)] {
        let mut b = CircuitAdapter::default();
        let msg = tower::fresh(&mut b, 8 * len);
        hash_wires(&mut b, &msg);
        let ands = b.gate_counts().direct_and;
        assert!(ands <= 10416 * compressions, "{len} bytes: {ands}");
        assert!(ands > 8000 * compressions || len == 0, "{len} bytes: {ands}");
    }
}

/// An element's bytes are its representation's, little-endian.
#[test]
fn elements_are_sixteen_little_endian_bytes() {
    assert_eq!(elem_bytes(F::from_repr(A)), A.to_le_bytes().to_vec());
    assert_eq!(elem_of_bytes(&A.to_le_bytes()).to_repr(), A);
    assert_eq!(low_bits(&[0xa5, 0x03, 0, 0, 0, 0, 0, 0], 11), 0x3a5);
    assert_eq!(low_bits(&[0xa5, 0x03, 0, 0, 0, 0, 0, 0], 9), 0x1a5);
}

/// Leaves, nodes and the challenger's flushes are Blake3's.
#[test]
fn digests_are_blake3() {
    let row = [F::from_repr(A), F::from_repr(B)];
    let bytes = [A.to_le_bytes(), B.to_le_bytes()].concat();
    assert_eq!(leaf(&row), *blake3::hash(&bytes).as_bytes());

    let (left, right) = ([7u8; 32], [9u8; 32]);
    assert_eq!(compress(&left, &right), *blake3::hash(&[left, right].concat()).as_bytes());

    let mut c = Challenger::new();
    c.observe(1);
    c.observe(2);
    let digest = *blake3::hash(&[1, 2]).as_bytes();
    for k in (0..32).rev() {
        assert_eq!(c.sample(), digest[k]);
    }
    assert_eq!(c.flushes(), 1);
    assert_eq!(c.buffers(), (&digest[..], &[][..]));
    assert_eq!(c.sample(), blake3::hash(&digest).as_bytes()[31]);
    assert_eq!(c.flushes(), 2);
}

/// The hash circuit on messages of one block, several blocks and more than one
/// chunk.
#[test]
fn the_hash_circuit_is_blake3() {
    for len in [0usize, 1, 64, 65, 200, 1024, 1025, 2100, 4097] {
        let msg: Vec<u8> = (0..len).map(|i| (i * 37 + 11) as u8).collect();
        let mut b = CircuitAdapter::default();
        let wires: Vec<usize> = (0..8 * len).map(|_| b.fresh_one()).collect();
        let out = hash_wires(&mut b, &wires);
        let witness: Vec<bool> =
            msg.iter().flat_map(|x| (0..8).map(move |k| x >> k & 1 == 1)).collect();
        let values = b.eval_gates(&witness);
        let got: Vec<u8> = out
            .chunks(8)
            .map(|c| c.iter().enumerate().map(|(k, &w)| u8::from(values[w]) << k).sum())
            .collect();
        assert_eq!(got, blake3::hash(&msg).as_bytes().to_vec(), "{len} bytes");
    }
}

/// One compression, four, and the tree over two chunks.
#[test]
fn the_hash_circuit_spends_one_and_per_carry() {
    for (len, ands) in [(64usize, 10_281usize), (256, 41_511), (1072, 186_125)] {
        let mut b = CircuitAdapter::default();
        let wires: Vec<usize> = (0..8 * len).map(|_| b.fresh_one()).collect();
        hash_wires(&mut b, &wires);
        assert_eq!(b.gate_counts().non_free(), ands, "{len} bytes");
    }
}

/// The arithmetic gadgets on 128-bit elements agree with the field.
#[test]
fn tower_circuits_compute_the_field() {
    let mut b = CircuitAdapter::default();
    let x = tower::fresh(&mut b, 128);
    let y = tower::fresh(&mut b, 128);
    let sum = tower::add(&mut b, &x, &y);
    let product = tower::mul(&mut b, &x, &y);
    let square = tower::square(&mut b, &x);
    let constant = tower::constant(&mut b, B, 128);
    let mut witness = tower::witness_bits(A, 128);
    witness.extend(tower::witness_bits(B, 128));
    let values = b.eval_gates(&witness);
    let (p, q) = (F::from_repr(A), F::from_repr(B));
    assert_eq!(tower::read(&values, &sum), A ^ B);
    assert_eq!(tower::read(&values, &product), p.times(q).to_repr());
    assert_eq!(tower::read(&values, &square), p.square().to_repr());
    assert_eq!(tower::read(&values, &constant), B);
}

/// Fresh randomness is fresh.
#[test]
fn random_bytes_differ() {
    assert_ne!(random_bytes::<32>(), random_bytes::<32>());
}

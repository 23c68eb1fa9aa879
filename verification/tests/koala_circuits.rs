//! KoalaBear gadgets against the field, and the field against Plonky3's.

use bitcoin_stark_verifier::poseidon2::constants::P;
use bitcoin_stark_verifier::poseidon2::{ext4, field, reference as r};
use bitcoin_stark_verifier::whir_gc::gates::{CircuitAdapter, CircuitTrait};
use bitcoin_stark_verifier::whir_gc::koala::{
    add, compress, constant, div_2exp, double, ext_mul, halve, hash_row, mul, mul_const, permute,
    sbox, sub, Ext, Fp, BITS,
};
use p3_field::extension::BinomialExtensionField;
use p3_field::{BasedVectorSpace, PrimeCharacteristicRing, PrimeField32};
use p3_koala_bear::{default_koalabear_poseidon2_16, KoalaBear};
use p3_symmetric::Permutation;
use rand::{Rng, SeedableRng};
use rand_chacha::ChaCha20Rng;

const WIDTH: usize = 16;

fn input(b: &mut CircuitAdapter, w: &mut Vec<bool>, v: u32) -> Fp {
    let wires: Fp = (0..BITS).map(|_| b.fresh_one()).collect();
    w.extend((0..BITS).map(|i| (v >> i) & 1 == 1));
    wires
}

fn read(values: &[bool], x: &Fp) -> u32 {
    x.iter().enumerate().fold(0u32, |acc, (i, &w)| acc | (u32::from(values[w]) << i))
}

fn elem(rng: &mut ChaCha20Rng) -> u32 {
    rng.random_range(0..P)
}

/// Every gadget against the reference, with its AND count.
#[test]
fn matches_the_reference_and_counts_gates() {
    let mut rng = ChaCha20Rng::seed_from_u64(7);
    let mut report = Vec::new();

    // Field operations.
    for trial in 0..3 {
        let (a, v) = (elem(&mut rng), elem(&mut rng));
        let mut b = CircuitAdapter::default();
        let mut w = Vec::new();
        let x = input(&mut b, &mut w, a);
        let y = input(&mut b, &mut w, v);
        let before = b.gate_counts().direct_and;
        let s = add(&mut b, &x, &y);
        let c_add = b.gate_counts().direct_and - before;
        let before = b.gate_counts().direct_and;
        let d = sub(&mut b, &x, &y);
        let c_sub = b.gate_counts().direct_and - before;
        let before = b.gate_counts().direct_and;
        let m = mul(&mut b, &x, &y);
        let c_mul = b.gate_counts().direct_and - before;
        let before = b.gate_counts().direct_and;
        let h = halve(&mut b, &x);
        let c_halve = b.gate_counts().direct_and - before;
        let before = b.gate_counts().direct_and;
        let h8 = div_2exp(&mut b, &x, 8);
        let c_h8 = b.gate_counts().direct_and - before;
        let before = b.gate_counts().direct_and;
        let h24 = div_2exp(&mut b, &x, 24);
        let c_h24 = b.gate_counts().direct_and - before;
        let before = b.gate_counts().direct_and;
        let cube = sbox(&mut b, &x);
        let c_sbox = b.gate_counts().direct_and - before;
        let values = b.eval_gates(&w);
        assert_eq!(read(&values, &s), field::add(a, v), "add");
        assert_eq!(read(&values, &d), field::sub(a, v), "sub");
        assert_eq!(read(&values, &m), field::mul(a, v), "mul");
        assert_eq!(read(&values, &h), field::div_2exp(a, 1), "halve");
        assert_eq!(read(&values, &h8), field::div_2exp(a, 8), "div 2^8");
        assert_eq!(read(&values, &h24), field::div_2exp(a, 24), "div 2^24");
        assert_eq!(read(&values, &cube), field::sbox(a), "sbox");
        if trial == 0 {
            report.push(format!(
                "add {c_add}, sub {c_sub}, mul {c_mul}, halve {c_halve}, div 2^8 {c_h8}, div 2^24 {c_h24}, sbox {c_sbox}"
            ));
        }
    }

    // Extension multiplication.
    {
        let a: [u32; 4] = core::array::from_fn(|_| elem(&mut rng));
        let v: [u32; 4] = core::array::from_fn(|_| elem(&mut rng));
        let mut b = CircuitAdapter::default();
        let mut w = Vec::new();
        let x: Ext = (0..4).map(|i| input(&mut b, &mut w, a[i])).collect();
        let y: Ext = (0..4).map(|i| input(&mut b, &mut w, v[i])).collect();
        let before = b.gate_counts().direct_and;
        let m = ext_mul(&mut b, &x, &y);
        let c = b.gate_counts().direct_and - before;
        let values = b.eval_gates(&w);
        let got: [u32; 4] = core::array::from_fn(|i| read(&values, &m[i]));
        assert_eq!(got, ext4::mul(a, v), "ext mul");
        report.push(format!("ext4 mul {c}"));
    }

    // The permutation, a compression and a row hash.
    {
        let st: [u32; WIDTH] = core::array::from_fn(|_| elem(&mut rng));
        let mut b = CircuitAdapter::default();
        let mut w = Vec::new();
        let mut state: Vec<Fp> = (0..WIDTH).map(|i| input(&mut b, &mut w, st[i])).collect();
        let before = b.gate_counts().direct_and;
        permute(&mut b, &mut state);
        let c_perm = b.gate_counts().direct_and - before;
        let values = b.eval_gates(&w);
        let mut expect = st;
        r::permute(&mut expect);
        let got: [u32; WIDTH] = core::array::from_fn(|i| read(&values, &state[i]));
        assert_eq!(got, expect, "permutation");
        report.push(format!("poseidon2 permutation {c_perm}"));
    }
    {
        let row: Vec<u32> = (0..64).map(|_| elem(&mut rng)).collect();
        let mut b = CircuitAdapter::default();
        let mut w = Vec::new();
        let wires: Vec<Fp> = row.iter().map(|&v| input(&mut b, &mut w, v)).collect();
        let before = b.gate_counts().direct_and;
        let digest = hash_row(&mut b, &wires);
        let c = b.gate_counts().direct_and - before;
        let values = b.eval_gates(&w);
        let got: [u32; 8] = core::array::from_fn(|i| read(&values, &digest[i]));
        assert_eq!(got, r::hash_row(&row), "row hash");
        report.push(format!("hash_row of 64 elements {c}"));
    }
    for line in report {
        println!("koalabear: {line} AND");
    }
}

/// A node of two digests, doubling and a constant multiple.
#[test]
fn compression_and_constants_match_the_reference() {
    let left: [u32; 8] = core::array::from_fn(|i| 11 + i as u32);
    let right: [u32; 8] = core::array::from_fn(|i| P - 1 - i as u32);
    let mut b = CircuitAdapter::default();
    let mut w = Vec::new();
    let l: Vec<Fp> = left.iter().map(|&v| input(&mut b, &mut w, v)).collect();
    let rr: Vec<Fp> = right.iter().map(|&v| input(&mut b, &mut w, v)).collect();
    let node = compress(&mut b, &l, &rr);
    let twice = double(&mut b, &rr[0]);
    let scaled = mul_const(&mut b, &rr[0], 12345);
    let fixed = constant(&mut b, 77);
    let values = b.eval_gates(&w);
    let got: [u32; 8] = core::array::from_fn(|i| read(&values, &node[i]));
    assert_eq!(got, r::compress(&left, &right));
    assert_eq!(read(&values, &twice), P - 2);
    assert_eq!(read(&values, &scaled), P - 12345);
    assert_eq!(read(&values, &fixed), 77);
}

/// Base and extension arithmetic agree with Plonky3's, and with exact values.
#[test]
fn field_and_extension_match_plonky3() {
    type EF = BinomialExtensionField<KoalaBear, 4>;
    assert_eq!(P, KoalaBear::ORDER_U32);
    assert_eq!(field::add(P - 1, 1), 0);
    assert_eq!(field::sub(0, 1), P - 1);
    assert_eq!(field::mul(P - 1, P - 1), 1);
    assert_eq!(field::mul(field::div_2exp(5, 3), 8), 5);
    assert_eq!(field::sbox(3), 27);
    assert_eq!(ext4::mul([0, 1, 0, 0], [0, 0, 0, 1]), [3, 0, 0, 0]);

    let mut rng = ChaCha20Rng::seed_from_u64(3);
    for _ in 0..50 {
        let a: [u32; 4] = core::array::from_fn(|_| elem(&mut rng));
        let b: [u32; 4] = core::array::from_fn(|_| elem(&mut rng));
        let ef = |x: [u32; 4]| EF::from_basis_coefficients_fn(|i| KoalaBear::from_u32(x[i]));
        let back = |x: EF| -> Vec<u32> {
            let c: &[KoalaBear] = x.as_basis_coefficients_slice();
            c.iter().map(|v| v.as_canonical_u32()).collect()
        };
        assert_eq!(ext4::mul(a, b).to_vec(), back(ef(a) * ef(b)));
        assert_eq!(ext4::add(a, b).to_vec(), back(ef(a) + ef(b)));
        assert_eq!(ext4::sub(a, b).to_vec(), back(ef(a) - ef(b)));
        assert_eq!(ext4::mul(a, b), ext4::mul(b, a));
    }
}

/// The permutation is Plonky3's default instance.
#[test]
fn permutation_matches_plonky3() {
    let mut rng = ChaCha20Rng::seed_from_u64(4);
    let perm = default_koalabear_poseidon2_16();
    for _ in 0..20 {
        let st: [u32; WIDTH] = core::array::from_fn(|_| elem(&mut rng));
        let mut mine = st;
        r::permute(&mut mine);
        let theirs = perm.permute(core::array::from_fn(|i| KoalaBear::from_u32(st[i])));
        assert_eq!(mine, core::array::from_fn(|i| theirs[i].as_canonical_u32()));
    }
}

/// The adders cost one gate for each bit, and the last reduction one subtraction
/// and one selection.
#[test]
fn sums_cost_one_gate_for_each_bit() {
    let cost = |b: &CircuitAdapter| b.gate_counts().non_free();
    let mut b = CircuitAdapter::default();
    let mut w = Vec::new();
    let x = input(&mut b, &mut w, 5);
    let y = input(&mut b, &mut w, P - 3);
    let start = cost(&b);
    let s = add(&mut b, &x, &y);
    let added = cost(&b);
    let d = sub(&mut b, &x, &y);
    let subtracted = cost(&b);
    let h = halve(&mut b, &x);
    let halved = cost(&b);
    assert!(added - start > 0 && added - start <= 96);
    assert!(subtracted - added > 0 && subtracted - added <= 129);
    assert!(halved - subtracted > 0 && halved - subtracted <= 63);
    let values = b.eval_gates(&w);
    assert_eq!(read(&values, &s), 2);
    assert_eq!(read(&values, &d), 8);
    assert_eq!(2 * read(&values, &h), P + 5);
}

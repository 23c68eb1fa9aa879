[package]
name = "bitcoin_stark_verifier"
version = "0.1.0"
edition = "2021"
publish = false

[dependencies]
blake3 = "=1.8.7"
rand = "=0.9.5"
p3-binary-field = "=0.8.0"
p3-field = "=0.8.0"
p3-air = "=0.8.0"

[dev-dependencies]
rand_chacha = "=0.9.0"
p3-koala-bear = "=0.8.0"
p3-symmetric = "=0.8.0"
p3-challenger = "=0.8.0"
p3-commit = "=0.8.0"
p3-matrix = "=0.8.0"
p3-merkle-tree = "=0.8.0"
p3-whir = "=0.8.0"
p3-sumcheck = "=0.8.0"
p3-binary-pcs = "=0.8.0"
p3-blake3 = "=0.8.0"
p3-multi-stark = "=0.8.0"
p3-keccak-air = "=0.8.0"
p3-dft = "=0.8.0"
p3-multilinear-util = "=0.8.0"

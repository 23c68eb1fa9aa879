//! Poseidon2 over KoalaBear: the field and its quartic extension, the
//! permutation, the sponge that hashes rows and the Merkle compression.
pub mod constants;
pub mod ext4;
pub mod field;
pub mod reference;

//! Verifiers for WHIR and multi-STARK proofs, together with the boolean
//! circuits and the script programs that carry out the same checks.
pub mod apart;
pub mod merkle;
pub mod multilinear;
pub mod poseidon2;
pub mod whir;
pub mod whir_gc;

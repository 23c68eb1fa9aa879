//! The WHIR verifier over KoalaBear and Poseidon2, in plain integers and as a
//! script program.
pub mod arith;
pub mod binding;
pub mod builder;
pub mod false_claims;
pub mod honest;
pub mod layout;
pub mod log;
pub mod model;
pub mod pieces;
pub mod proof_script;
pub mod pruned;
pub mod reading;
pub mod reference;
pub mod schedule;
pub mod script;
pub mod sponge;
pub mod stir;
pub mod stream;
pub mod symbols;
pub mod tape;
pub mod transcript;
pub mod verify;
pub mod weights;
pub mod work;

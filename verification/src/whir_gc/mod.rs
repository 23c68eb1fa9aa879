//! The WHIR verifier over the binary tower fields: a plain one and a boolean
//! circuit, with the garbling of that circuit.
pub mod binding;
pub mod blake3;
pub mod bytes;
pub mod circuit;
pub mod constraints;
pub mod false_claims;
pub mod field;
pub mod garble;
pub mod gates;
pub mod hash;
pub mod honest;
pub mod koala;
pub mod koala_bits;
pub mod netlist;
pub mod profile;
pub mod protocol;
pub mod pruned;
pub mod readings;
pub mod reference;
pub mod sizes;
pub mod stark;
pub mod stark_circuit;
pub mod stark_laws;
pub mod stark_model;
pub mod stark_stream;
pub mod stark_wires;
pub mod strata;
pub mod stream;
pub mod switch;
pub mod tower;
pub mod wire_arith;
pub mod wire_closing;
pub mod wire_inputs;
pub mod wire_layout;
pub mod wire_merkle;
pub mod wire_sponge;
pub mod wire_transcript;
pub mod wires;
pub mod work;
pub mod zerocheck;

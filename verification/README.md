# bitcoin_stark_verifier

A verified verifier for WHIR and STARK proofs, in the forms that a Bitcoin
bridge needs it: on plain values, as a Bitcoin script program, and as a Boolean
circuit ready for garbling. Contracts and proofs are checked by Verus.

- `src/poseidon2` -- KoalaBear, its quartic extension and Poseidon2 on plain
  values.
- `src/merkle.rs` -- pruned Merkle openings expanded into one path per query.
- `src/whir` -- WHIR over KoalaBear: the transcript, the plain verifier, and the
  script program that verifies one proof. `schedule.rs` gives the transcript over
  any sponge, and the duplex sponge of `sponge.rs` is one of them. `script.rs`
  gives the programs their meaning on a stack machine; `proof_script.rs` proves
  that a program passes exactly when the proof verifies, and says what it passes
  over any other data. A program is a list of the machine's operations (`Op`);
  turning an operation into Bitcoin opcodes is not part of this crate.
- `src/whir_gc` -- WHIR and the multi-STARK layers over `GF(2^128)` with Blake3:
  the plain verifier (`reference`, `stark`), the same verifier on wires
  (`circuit`, `stark_circuit`, over the gadgets in `tower`, `blake3` and
  `koala`), and garbling (`garble`). The circuits' contracts say that the output
  wire is set exactly when the proof on the wires is accepted under the hash that
  the Blake3 gadget computes, for every assignment of the inputs. That this is
  the plain verifier's answer is proved on the hypothesis that the gadget's hash,
  given in full in `blake3`, is the function of the `blake3` crate; the tests
  compare the two. Where each message stands among the inputs follows from the proof's
  shape (`wire_layout`), so that a circuit garbled before a proof exists serves
  every proof of its shape.
- `app` -- Plonky3 types turned into the types of `src`, and a table of gates per
  phase.
- `tests` -- the library against Plonky3 on real proofs.

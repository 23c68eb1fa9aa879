//! Garbling and evaluating a built circuit, streaming over its gate list with
//! one 16-byte label per wire.
//!
//! - **XOR is free**: `c0 = a0 ^ b0`, and the evaluator XORs its labels.
//! - **AND**, one ciphertext: `c0 = H(a0)`, `ct = H(a1) ^ H(a0) ^ b0` with
//!   `a1 = a0 ^ delta`; the evaluator holding `a` for `x = 0` outputs `H(a)`,
//!   for `x = 1` outputs `H(a) ^ ct ^ b`.
//! - **OR**, one ciphertext: `c0 = H(a1) ^ delta`, `ct = H(a1) ^ H(a0) ^ b1`;
//!   the evaluator outputs `H(a)` for `x = 1`, `H(a) ^ ct ^ b` for `x = 0`.
//!
//! with `H(l) = Blake3(l || gid)` ([`S::hash_ext`]). This is privacy-free
//! garbling: the evaluator knows every plaintext value and uses it to pick the
//! branch, and the point is that the *true* label of the output wire can be
//! obtained only by an accepting evaluation.
use super::gates;
use super::gates::{CircuitAdapter, CircuitTrait, Operation, LABEL_SIZE, S};
use super::netlist;
use super::netlist::{Env, Netlist};
use vstd::prelude::*;

verus! {

/// The kinds of gate that carry a ciphertext.
#[derive(Clone, Copy, Debug, PartialEq, Eq, Structural)]
pub enum GateType {
    And,
    Or,
}

/// A label as bytes.
pub type Label = Seq<u8>;

/// The all-zero label.
pub open spec fn zero_label() -> Label {
    Seq::new(LABEL_SIZE as nat, |i: int| 0u8)
}

/// The label that stands for `v` on a wire whose false label is `l0`.
pub open spec fn label_of(l0: Label, delta: Label, v: bool) -> Label {
    if v {
        gates::xor_bytes(l0, delta)
    } else {
        l0
    }
}

/// The output's false label and the ciphertext of a garbled AND or OR gate
/// with the false labels `a0` and `b0` on its inputs.
pub open spec fn garbled_gate(
    kind: GateType,
    a0: Label,
    b0: Label,
    gid: u32,
    delta: Label,
) -> (Label, Label) {
    let h0 = gates::prf(a0, gid);
    let h1 = gates::prf(gates::xor_bytes(a0, delta), gid);
    let h = gates::xor_bytes(h1, h0);
    match kind {
        GateType::And => (h0, gates::xor_bytes(h, b0)),
        GateType::Or => (
            gates::xor_bytes(h1, delta),
            gates::xor_bytes(h, gates::xor_bytes(b0, delta)),
        ),
    }
}

/// The output label an evaluator gets that holds `a` for the value `x`, and
/// `b`, with a ciphertext `ct`.
pub open spec fn evaluated_gate(
    kind: GateType,
    x: bool,
    a: Label,
    b: Label,
    ct: Label,
    gid: u32,
) -> Label {
    let h = gates::prf(a, gid);
    if x == (kind is Or) {
        h
    } else {
        gates::xor_bytes(gates::xor_bytes(h, ct), b)
    }
}

/// The kind of a gate that carries a ciphertext.
pub open spec fn kind(g: Operation) -> GateType {
    if g is Or {
        GateType::Or
    } else {
        GateType::And
    }
}

/// The number of AND and OR gates.
pub open spec fn non_free(gates: Seq<Operation>) -> nat {
    netlist::ands(gates) + netlist::ors(gates)
}

/// The false label of every wire after garbling `gates`, gate `k` being
/// garbled under index `k`.
pub open spec fn false_labels(
    gates: Seq<Operation>,
    delta: Label,
    init: spec_fn(int) -> Label,
) -> spec_fn(int) -> Label
    decreases gates.len(),
{
    if gates.len() == 0 {
        init
    } else {
        let before = false_labels(gates.drop_last(), delta, init);
        let g = gates.last();
        let gid = (gates.len() - 1) as u32;
        let a0 = before(g.left());
        let b0 = before(g.right());
        let c0 = if g is Add {
            gates::xor_bytes(a0, b0)
        } else {
            garbled_gate(kind(g), a0, b0, gid, delta).0
        };
        |w: int|
            if w == g.out() {
                c0
            } else {
                before(w)
            }
    }
}

/// The ciphertexts of `gates`, one per AND and OR gate, in gate order.
pub open spec fn ciphertexts(
    gates: Seq<Operation>,
    delta: Label,
    init: spec_fn(int) -> Label,
) -> Seq<Label>
    decreases gates.len(),
{
    if gates.len() == 0 {
        Seq::empty()
    } else {
        let earlier = ciphertexts(gates.drop_last(), delta, init);
        let before = false_labels(gates.drop_last(), delta, init);
        let g = gates.last();
        let gid = (gates.len() - 1) as u32;
        if g is Add {
            earlier
        } else {
            earlier.push(garbled_gate(kind(g), before(g.left()), before(g.right()), gid, delta).1)
        }
    }
}

/// The label of every wire that an evaluator holds after `gates`, starting
/// from the labels `init` and the wire values under `env`.
pub open spec fn held_labels(
    gates: Seq<Operation>,
    cts: Seq<Label>,
    env: Env,
    init: spec_fn(int) -> Label,
) -> spec_fn(int) -> Label
    decreases gates.len(),
{
    if gates.len() == 0 {
        init
    } else {
        let earlier = gates.drop_last();
        let before = held_labels(earlier, cts, env, init);
        let g = gates.last();
        let gid = (gates.len() - 1) as u32;
        let a = before(g.left());
        let b = before(g.right());
        let c = if g is Add {
            gates::xor_bytes(a, b)
        } else {
            evaluated_gate(
                kind(g),
                netlist::run(earlier, env)(g.left()),
                a,
                b,
                cts[non_free(earlier) as int],
                gid,
            )
        };
        |w: int|
            if w == g.out() {
                c
            } else {
                before(w)
            }
    }
}

/// The bytes of a list of labels.
pub open spec fn label_bytes(ls: Seq<S>) -> Seq<Label> {
    Seq::new(ls.len(), |i: int| ls[i]@)
}

/// The labels `ls` on the wires `0..ls.len()`, the zero label elsewhere.
pub open spec fn initial_labels(ls: Seq<Label>) -> spec_fn(int) -> Label {
    |w: int|
        if 0 <= w < ls.len() {
            ls[w]
        } else {
            zero_label()
        }
}

/// What the evaluator starts from: the labels of the two constants and of the
/// witness bits, the zero label elsewhere.
pub open spec fn witness_labels(
    label0: Seq<Label>,
    delta: Label,
    witness: Seq<bool>,
) -> spec_fn(int) -> Label {
    |w: int|
        if 0 <= w < 2 + witness.len() {
            label_of(label0[w], delta, netlist::base(gates::witness_env(witness))(w))
        } else {
            zero_label()
        }
}

/// `g` is the garbling of the circuit `c` under the offset and the initial
/// labels that it holds.
pub open spec fn garbled_from(c: Netlist, g: Garbled) -> bool {
    let init = initial_labels(label_bytes(g.label0@));
    &&& g.output < c.next
    &&& label_bytes(g.ciphertexts@) == ciphertexts(c.gates, g.delta@, init)
    &&& g.output0@ == false_labels(c.gates, g.delta@, init)(g.output as int)
}

/// A garbled circuit: what the garbler hands the evaluator, and what it keeps.
pub struct Garbled {
    /// One per AND/OR gate, in gate order.
    pub ciphertexts: Vec<S>,
    /// Kept by the garbler: the global offset.
    pub delta: S,
    /// The false labels of the constant wires 0 and 1 and of every input wire,
    /// in wire order; the evaluator receives, per wire, the label of its value.
    pub label0: Vec<S>,
    /// The false label of the output wire; the true one is `output0 ^ delta`.
    pub output0: S,
    pub output: usize,
}

impl Garbled {
    /// The label of `wire` carrying `value`, for a constant or input wire.
    pub fn input_label(&self, wire: usize, value: bool) -> (l: S)
        requires
            wire < self.label0@.len(),
        ensures
            l@ == label_of(self.label0@[wire as int]@, self.delta@, value),
    {
        if value {
            self.label0[wire] ^ self.delta
        } else {
            self.label0[wire]
        }
    }

    /// The size of the ciphertexts.
    pub fn ciphertext_bytes(&self) -> (n: usize)
        requires
            self.ciphertexts@.len() * 16 <= usize::MAX,
        ensures
            n == self.ciphertexts@.len() * 16,
    {
        self.ciphertexts.len() * 16
    }
}

/// Garble one AND or OR gate.
fn gate_garbled_with_delta(a0: S, b0: S, gid: u32, kind: GateType, delta: S) -> (r: (S, S))
    ensures
        (r.0@, r.1@) == garbled_gate(kind, a0@, b0@, gid, delta@),
{
    let h0 = a0.hash_ext(gid);
    let a1 = a0 ^ delta;
    let h1 = a1.hash_ext(gid);
    let h = h1 ^ h0;
    match kind {
        GateType::And => (h0, h ^ b0),
        GateType::Or => (h1 ^ delta, h ^ (b0 ^ delta)),
    }
}

/// Evaluate one AND or OR gate.
fn gate_evaluate(kind: GateType, x: bool, a: S, b: S, ct: S, gid: u32) -> (r: S)
    ensures
        r@ == evaluated_gate(kind, x, a@, b@, ct@, gid),
{
    let h = a.hash_ext(gid);
    let direct = match kind {
        GateType::And => !x,
        GateType::Or => x,
    };
    if direct {
        h
    } else {
        (h ^ ct) ^ b
    }
}

/// Garble `circuit` with a fresh random offset. `inputs` is the number of
/// input wires, which follow the two constants at wire indices `2..2 + inputs`.
pub fn garble(circuit: &CircuitAdapter, inputs: usize, output: usize) -> (g: Garbled)
    requires
        circuit.inv(),
        2 + inputs <= circuit@.next,
        output < circuit@.next,
        circuit@.gates.len() <= 0x1_0000_0000,
    ensures
        g.label0@.len() == 2 + inputs,
        g.output == output,
        garbled_from(circuit@, g),
{
    proof {
        circuit.lemma_inv();
    }
    let delta = S::random();
    let mut label0: Vec<S> = Vec::new();
    while label0.len() < 2 + inputs
        invariant
            label0@.len() <= 2 + inputs <= usize::MAX,
        decreases 2 + inputs - label0@.len(),
    {
        label0.push(S::random());
    }
    garble_with(circuit, delta, label0, output)
}

/// Garble `circuit` under the offset `delta`, with the false labels `label0`
/// on the constants and the inputs.
pub fn garble_with(circuit: &CircuitAdapter, delta: S, label0: Vec<S>, output: usize) -> (g: Garbled)
    requires
        circuit.inv(),
        label0@.len() <= circuit@.next,
        output < circuit@.next,
        circuit@.gates.len() <= 0x1_0000_0000,
    ensures
        g.delta == delta,
        g.label0 == label0,
        g.output == output,
        garbled_from(circuit@, g),
{
    proof {
        circuit.lemma_inv();
    }
    let n = circuit.next_wire();
    let ops = circuit.get_gates();
    let ghost init = initial_labels(label_bytes(label0@));
    let mut labels: Vec<S> = Vec::new();
    while labels.len() < n
        invariant
            labels@.len() <= n,
            label0@.len() <= n,
            init == initial_labels(label_bytes(label0@)),
            forall|w: int| 0 <= w < labels@.len() ==> (#[trigger] labels@[w])@ == init(w),
        decreases n - labels@.len(),
    {
        let k = labels.len();
        if k < label0.len() {
            labels.push(label0[k]);
        } else {
            labels.push(S::zero());
        }
    }
    let mut cts: Vec<S> = Vec::new();
    let mut k: usize = 0;
    proof {
        assert(ops@.take(0) =~= Seq::<Operation>::empty());
        assert(label_bytes(cts@) =~= Seq::<Label>::empty());
    }
    while k < ops.len()
        invariant
            netlist::wf(circuit@),
            ops@ == circuit@.gates,
            n == circuit@.next,
            ops@.len() <= 0x1_0000_0000,
            k <= ops@.len(),
            labels@.len() == n,
            forall|w: int|
                0 <= w < n ==> (#[trigger] labels@[w])@ == false_labels(
                    ops@.take(k as int),
                    delta@,
                    init,
                )(w),
            label_bytes(cts@) == ciphertexts(ops@.take(k as int), delta@, init),
        decreases ops@.len() - k,
    {
        let ghost after = ops@.take(k + 1);
        let ghost cts0 = cts@;
        proof {
            assert(after.drop_last() =~= ops@.take(k as int));
            assert(after.last() == ops@[k as int]);
            assert(circuit@.gates[k as int].out() < n);
        }
        let gid: u32 = k as u32;
        match ops[k] {
            Operation::Add(d, x, y) => {
                let c0 = labels[x] ^ labels[y];
                labels.set(d, c0);
            },
            Operation::Mul(d, x, y) => {
                let (c0, ct) = gate_garbled_with_delta(labels[x], labels[y], gid, GateType::And, delta);
                labels.set(d, c0);
                cts.push(ct);
                assert(label_bytes(cts@) =~= label_bytes(cts0).push(ct@));
            },
            Operation::Or(d, x, y) => {
                let (c0, ct) = gate_garbled_with_delta(labels[x], labels[y], gid, GateType::Or, delta);
                labels.set(d, c0);
                cts.push(ct);
                assert(label_bytes(cts@) =~= label_bytes(cts0).push(ct@));
            },
        }
        k = k + 1;
    }
    assert(ops@.take(k as int) =~= ops@);
    let output0 = labels[output];
    Garbled { ciphertexts: cts, delta, label0, output0, output }
}

/// What an evaluation yields: the output's plaintext value and its label.
pub struct Evaluation {
    pub value: bool,
    pub label: S,
}

proof fn lemma_non_free_monotone(gates: Seq<Operation>, k: int)
    requires
        0 <= k <= gates.len(),
    ensures
        non_free(gates.take(k)) <= non_free(gates),
    decreases gates.len(),
{
    if k == gates.len() {
        assert(gates.take(k) =~= gates);
    } else {
        lemma_non_free_monotone(gates.drop_last(), k);
        assert(gates.drop_last().take(k) =~= gates.take(k));
    }
}

/// Evaluate the garbled circuit on `witness`, holding the labels of the
/// witness's values. Returns the output's value and label.
pub fn evaluate(circuit: &CircuitAdapter, garbled: &Garbled, witness: &[bool]) -> (e: Evaluation)
    requires
        circuit.inv(),
        2 + witness@.len() <= circuit@.next,
        2 + witness@.len() <= garbled.label0@.len(),
        garbled.output < circuit@.next,
        circuit@.gates.len() <= 0x1_0000_0000,
        garbled.ciphertexts@.len() == non_free(circuit@.gates),
    ensures
        e.value == netlist::value(
            circuit@,
            gates::witness_env(witness@),
            garbled.output as int,
        ),
        e.label@ == held_labels(
            circuit@.gates,
            label_bytes(garbled.ciphertexts@),
            gates::witness_env(witness@),
            witness_labels(label_bytes(garbled.label0@), garbled.delta@, witness@),
        )(garbled.output as int),
{
    proof {
        circuit.lemma_inv();
    }
    let n = circuit.next_wire();
    let ops = circuit.get_gates();
    let ghost env = gates::witness_env(witness@);
    let ghost cts = label_bytes(garbled.ciphertexts@);
    let ghost init = witness_labels(label_bytes(garbled.label0@), garbled.delta@, witness@);
    let mut value: Vec<bool> = Vec::new();
    let mut label: Vec<S> = Vec::new();
    while value.len() < n
        invariant
            value@.len() <= n,
            2 + witness@.len() <= n,
            2 + witness@.len() <= garbled.label0@.len(),
            label@.len() == value@.len(),
            env == gates::witness_env(witness@),
            init == witness_labels(label_bytes(garbled.label0@), garbled.delta@, witness@),
            forall|w: int| 0 <= w < value@.len() ==> #[trigger] value@[w] == netlist::base(env)(w),
            forall|w: int| 0 <= w < label@.len() ==> (#[trigger] label@[w])@ == init(w),
        decreases n - value@.len(),
    {
        let k = value.len();
        if k < 2 {
            value.push(k == 1);
            label.push(garbled.input_label(k, k == 1));
        } else if k - 2 < witness.len() {
            let bit = witness[k - 2];
            value.push(bit);
            label.push(garbled.input_label(k, bit));
        } else {
            value.push(false);
            label.push(S::zero());
        }
    }
    let total = garbled.ciphertexts.len();
    let mut next_ct: usize = 0;
    let mut k: usize = 0;
    assert(ops@.take(0) =~= Seq::<Operation>::empty());
    while k < ops.len()
        invariant
            netlist::wf(circuit@),
            ops@ == circuit@.gates,
            n == circuit@.next,
            ops@.len() <= 0x1_0000_0000,
            garbled.ciphertexts@.len() == non_free(ops@) == total,
            cts == label_bytes(garbled.ciphertexts@),
            k <= ops@.len(),
            value@.len() == n,
            label@.len() == n,
            next_ct == non_free(ops@.take(k as int)),
            forall|w: int|
                0 <= w < n ==> #[trigger] value@[w] == netlist::run(ops@.take(k as int), env)(w),
            forall|w: int|
                0 <= w < n ==> (#[trigger] label@[w])@ == held_labels(
                    ops@.take(k as int),
                    cts,
                    env,
                    init,
                )(w),
        decreases ops@.len() - k,
    {
        let ghost after = ops@.take(k + 1);
        proof {
            assert(after.drop_last() =~= ops@.take(k as int));
            assert(after.last() == ops@[k as int]);
            assert(circuit@.gates[k as int].out() < n);
            lemma_non_free_monotone(ops@, k + 1);
        }
        let gid: u32 = k as u32;
        match ops[k] {
            Operation::Add(d, x, y) => {
                let v = value[x] != value[y];
                let l = label[x] ^ label[y];
                value.set(d, v);
                label.set(d, l);
            },
            Operation::Mul(d, x, y) => {
                let ct = garbled.ciphertexts[next_ct];
                next_ct = next_ct + 1;
                let v = value[x] && value[y];
                let l = gate_evaluate(GateType::And, value[x], label[x], label[y], ct, gid);
                value.set(d, v);
                label.set(d, l);
            },
            Operation::Or(d, x, y) => {
                let ct = garbled.ciphertexts[next_ct];
                next_ct = next_ct + 1;
                let v = value[x] || value[y];
                let l = gate_evaluate(GateType::Or, value[x], label[x], label[y], ct, gid);
                value.set(d, v);
                label.set(d, l);
            },
        }
        k = k + 1;
    }
    assert(ops@.take(k as int) =~= ops@);
    Evaluation { value: value[garbled.output], label: label[garbled.output] }
}

proof fn lemma_xor_byte(h0: u8, h1: u8, b: u8, d: u8)
    by (bit_vector)
    ensures
        (h1 ^ ((h1 ^ h0) ^ b)) ^ b == h0,
        (h1 ^ ((h1 ^ h0) ^ b)) ^ (b ^ d) == h0 ^ d,
        (h0 ^ ((h1 ^ h0) ^ (b ^ d))) ^ b == h1 ^ d,
        (h0 ^ ((h1 ^ h0) ^ (b ^ d))) ^ (b ^ d) == (h1 ^ d) ^ d,
        (h1 ^ d) ^ d == h1,
        (h0 ^ d) ^ (h1 ^ d) == h0 ^ h1,
        (h0 ^ d) ^ h1 == (h0 ^ h1) ^ d,
        h0 ^ (h1 ^ d) == (h0 ^ h1) ^ d,
{
}

/// The labels of one gate follow its truth table.
proof fn lemma_gate(g: Operation, a0: Label, b0: Label, delta: Label, gid: u32, x: bool, y: bool)
    requires
        a0.len() == LABEL_SIZE,
        b0.len() == LABEL_SIZE,
        delta.len() == LABEL_SIZE,
    ensures
        g is Add ==> gates::xor_bytes(label_of(a0, delta, x), label_of(b0, delta, y)) == label_of(
            gates::xor_bytes(a0, b0),
            delta,
            x != y,
        ),
        !(g is Add) ==> evaluated_gate(
            kind(g),
            x,
            label_of(a0, delta, x),
            label_of(b0, delta, y),
            garbled_gate(kind(g), a0, b0, gid, delta).1,
            gid,
        ) == label_of(garbled_gate(kind(g), a0, b0, gid, delta).0, delta, g.table(x, y)),
{
    let h0 = gates::prf(a0, gid);
    let h1 = gates::prf(gates::xor_bytes(a0, delta), gid);
    if g is Add {
        let l = gates::xor_bytes(label_of(a0, delta, x), label_of(b0, delta, y));
        let r = label_of(gates::xor_bytes(a0, b0), delta, x != y);
        assert forall|i: int| 0 <= i < LABEL_SIZE implies l[i] == r[i] by {
            lemma_xor_byte(a0[i], b0[i], b0[i], delta[i]);
        }
        assert(l =~= r);
    } else {
        let (c0, ct) = garbled_gate(kind(g), a0, b0, gid, delta);
        let l = evaluated_gate(
            kind(g),
            x,
            label_of(a0, delta, x),
            label_of(b0, delta, y),
            ct,
            gid,
        );
        let r = label_of(c0, delta, g.table(x, y));
        let held = label_of(b0, delta, y);
        assert forall|i: int| 0 <= i < LABEL_SIZE implies l[i] == r[i] by {
            lemma_xor_byte(h0[i], h1[i], b0[i], delta[i]);
            assert(held[i] == if y { b0[i] ^ delta[i] } else { b0[i] });
            if g is Or {
                assert(c0[i] == h1[i] ^ delta[i]);
                if x {
                    assert(l[i] == h1[i]);
                } else {
                    assert(ct[i] == (h1[i] ^ h0[i]) ^ (b0[i] ^ delta[i]));
                    assert(l[i] == (h0[i] ^ ct[i]) ^ held[i]);
                }
            } else {
                assert(c0[i] == h0[i]);
                if x {
                    assert(ct[i] == (h1[i] ^ h0[i]) ^ b0[i]);
                    assert(l[i] == (h1[i] ^ ct[i]) ^ held[i]);
                }
            }
        }
        assert(l =~= r);
    }
}

/// Every wire's false label has the label's size.
proof fn lemma_false_label_len(
    gates: Seq<Operation>,
    delta: Label,
    init: spec_fn(int) -> Label,
    w: int,
)
    requires
        delta.len() == LABEL_SIZE,
        forall|v: int| (#[trigger] init(v)).len() == LABEL_SIZE,
    ensures
        false_labels(gates, delta, init)(w).len() == LABEL_SIZE,
    decreases gates.len(),
{
    if gates.len() > 0 {
        lemma_false_label_len(gates.drop_last(), delta, init, w);
        lemma_false_label_len(gates.drop_last(), delta, init, gates.last().left());
        lemma_false_label_len(gates.drop_last(), delta, init, gates.last().right());
    }
}

proof fn lemma_ciphertext_count(gates: Seq<Operation>, delta: Label, init: spec_fn(int) -> Label)
    ensures
        ciphertexts(gates, delta, init).len() == non_free(gates),
    decreases gates.len(),
{
    if gates.len() > 0 {
        lemma_ciphertext_count(gates.drop_last(), delta, init);
    }
}

/// A garbling holds one ciphertext per AND and OR gate.
pub proof fn law_one_ciphertext_per_non_free_gate(c: Netlist, g: Garbled)
    requires
        garbled_from(c, g),
    ensures
        g.ciphertexts@.len() == non_free(c.gates),
{
    lemma_ciphertext_count(c.gates, g.delta@, initial_labels(label_bytes(g.label0@)));
}

/// If the evaluator starts with the labels of the inputs' values, then after
/// the gates it holds, on every wire, the label of that wire's value.
proof fn lemma_labels_follow_values(
    gates: Seq<Operation>,
    cts: Seq<Label>,
    env: Env,
    delta: Label,
    init0: spec_fn(int) -> Label,
    init: spec_fn(int) -> Label,
    w: int,
)
    requires
        delta.len() == LABEL_SIZE,
        forall|v: int| (#[trigger] init0(v)).len() == LABEL_SIZE,
        forall|v: int| #[trigger] init(v) == label_of(init0(v), delta, netlist::base(env)(v)),
        ciphertexts(gates, delta, init0).len() <= cts.len(),
        cts.take(ciphertexts(gates, delta, init0).len() as int) == ciphertexts(gates, delta, init0),
    ensures
        held_labels(gates, cts, env, init)(w) == label_of(
            false_labels(gates, delta, init0)(w),
            delta,
            netlist::run(gates, env)(w),
        ),
    decreases gates.len(),
{
    if gates.len() > 0 {
        let earlier = gates.drop_last();
        let g = gates.last();
        let before = ciphertexts(earlier, delta, init0);
        lemma_ciphertext_count(earlier, delta, init0);
        lemma_ciphertext_count(gates, delta, init0);
        assert(cts.take(before.len() as int) =~= before) by {
            assert(cts.take(before.len() as int) =~= cts.take(
                ciphertexts(gates, delta, init0).len() as int,
            ).take(before.len() as int));
            assert(ciphertexts(gates, delta, init0).take(before.len() as int) =~= before);
        }
        lemma_labels_follow_values(earlier, cts, env, delta, init0, init, w);
        lemma_labels_follow_values(earlier, cts, env, delta, init0, init, g.left());
        lemma_labels_follow_values(earlier, cts, env, delta, init0, init, g.right());
        lemma_false_label_len(earlier, delta, init0, g.left());
        lemma_false_label_len(earlier, delta, init0, g.right());
        let gid = (gates.len() - 1) as u32;
        let fl = false_labels(earlier, delta, init0);
        lemma_gate(
            g,
            fl(g.left()),
            fl(g.right()),
            delta,
            gid,
            netlist::run(earlier, env)(g.left()),
            netlist::run(earlier, env)(g.right()),
        );
        if !(g is Add) {
            let all = ciphertexts(gates, delta, init0);
            assert(cts.take(all.len() as int)[all.len() - 1] == cts[all.len() - 1]);
        }
    }
}

/// The evaluator of a garbling, holding the labels of the witness's values,
/// obtains the label of the output's value: the true label exactly when the
/// circuit's output is true.
pub proof fn law_label_follows_value(c: Netlist, g: Garbled, witness: Seq<bool>)
    requires
        netlist::wf(c),
        garbled_from(c, g),
        g.label0@.len() == 2 + witness.len(),
    ensures
        held_labels(
            c.gates,
            label_bytes(g.ciphertexts@),
            gates::witness_env(witness),
            witness_labels(label_bytes(g.label0@), g.delta@, witness),
        )(g.output as int) == label_of(
            g.output0@,
            g.delta@,
            netlist::value(c, gates::witness_env(witness), g.output as int),
        ),
{
    let init0 = initial_labels(label_bytes(g.label0@));
    let init = witness_labels(label_bytes(g.label0@), g.delta@, witness);
    let env = gates::witness_env(witness);
    let cts = label_bytes(g.ciphertexts@);
    assert forall|v: int| #[trigger] init(v) == label_of(
        init0(v),
        g.delta@,
        netlist::base(env)(v),
    ) by {}
    assert(cts.take(cts.len() as int) =~= cts);
    lemma_labels_follow_values(c.gates, cts, env, g.delta@, init0, init, g.output as int);
}

/// The two labels of a wire differ wherever the offset is not zero, so the
/// label an evaluation yields tells its value.
pub proof fn law_labels_are_distinct(l0: Label, delta: Label)
    requires
        l0.len() == LABEL_SIZE,
        delta.len() == LABEL_SIZE,
        delta != zero_label(),
    ensures
        label_of(l0, delta, true) != label_of(l0, delta, false),
{
    if forall|i: int| 0 <= i < LABEL_SIZE ==> delta[i] == 0 {
        assert(delta =~= zero_label());
    }
    let i = choose|i: int| 0 <= i < LABEL_SIZE && delta[i] != 0;
    let a = l0[i];
    let d = delta[i];
    assert(d != 0 ==> a ^ d != a) by (bit_vector);
    assert(label_of(l0, delta, true)[i] == a ^ d);
}

} // verus!

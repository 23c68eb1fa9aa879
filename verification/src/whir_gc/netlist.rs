//! The mathematical model of a circuit under construction.
//!
//! A netlist is the number of wires allocated so far and the gates emitted so
//! far. Wires 0 and 1 carry the constants, every other wire is an input or the
//! output of exactly one gate, and gates only read wires older than their
//! output. Under an assignment of the inputs every wire then has one value,
//! and emitting more gates never changes the value of an older wire.
use vstd::prelude::*;

verus! {

/// A stored gate: `(output, x, y)`.
#[derive(Clone, Copy, Debug, PartialEq, Eq, Structural)]
pub enum Operation {
    /// XOR.
    Add(usize, usize, usize),
    /// AND.
    Mul(usize, usize, usize),
    /// OR.
    Or(usize, usize, usize),
}

/// The values of the input wires.
pub type Env = spec_fn(int) -> bool;

impl Operation {
    /// The wire this one drives.
    pub open spec fn out(self) -> int {
        match self {
            Operation::Add(d, _, _) => d as int,
            Operation::Mul(d, _, _) => d as int,
            Operation::Or(d, _, _) => d as int,
        }
    }

    /// The first operand.
    pub open spec fn left(self) -> int {
        match self {
            Operation::Add(_, x, _) => x as int,
            Operation::Mul(_, x, _) => x as int,
            Operation::Or(_, x, _) => x as int,
        }
    }

    /// The second operand.
    pub open spec fn right(self) -> int {
        match self {
            Operation::Add(_, _, y) => y as int,
            Operation::Mul(_, _, y) => y as int,
            Operation::Or(_, _, y) => y as int,
        }
    }

    /// Its truth table.
    pub open spec fn table(self, x: bool, y: bool) -> bool {
        match self {
            Operation::Add(_, _, _) => x != y,
            Operation::Mul(_, _, _) => x && y,
            Operation::Or(_, _, _) => x || y,
        }
    }
}

/// A circuit under construction.
pub struct Netlist {
    pub next: nat,
    /// The wires asked for that no gate drives.
    pub inputs: nat,
    pub gates: Seq<Operation>,
    /// The values that the builder was told its wires carry.
    pub told: Map<int, bool>,
}

/// The wire values before any gate: the two constants and the inputs.
pub open spec fn base(env: Env) -> spec_fn(int) -> bool {
    |w: int|
        if w == 0 {
            false
        } else if w == 1 {
            true
        } else {
            env(w)
        }
}

/// The wire values after `gates`, in order.
pub open spec fn run(gates: Seq<Operation>, env: Env) -> spec_fn(int) -> bool
    decreases gates.len(),
{
    if gates.len() == 0 {
        base(env)
    } else {
        let before = run(gates.drop_last(), env);
        let g = gates.last();
        |w: int|
            if w == g.out() {
                g.table(before(g.left()), before(g.right()))
            } else {
                before(w)
            }
    }
}

/// The value of wire `w` under the inputs `env`.
pub open spec fn value(c: Netlist, env: Env, w: int) -> bool {
    run(c.gates, env)(w)
}

/// The values of a vector of wires.
pub open spec fn bits(c: Netlist, env: Env, ws: Seq<usize>) -> Seq<bool> {
    Seq::new(ws.len(), |i: int| value(c, env, ws[i] as int))
}

/// Every wire of `ws` has been allocated.
pub open spec fn below(ws: Seq<usize>, n: nat) -> bool {
    forall|i: int| 0 <= i < ws.len() ==> (#[trigger] ws[i]) < n
}

/// The values of a list of wire vectors.
pub open spec fn words(c: Netlist, env: Env, ws: Seq<Vec<usize>>) -> Seq<Seq<bool>> {
    Seq::new(ws.len(), |i: int| bits(c, env, ws[i]@))
}

/// Every wire of every vector has been allocated, and the vectors have `len`
/// wires.
pub open spec fn all_below(ws: Seq<Vec<usize>>, len: nat, n: nat) -> bool {
    forall|i: int|
        0 <= i < ws.len() ==> (#[trigger] ws[i])@.len() == len && below(ws[i]@, n)
}

/// Every wire is a constant, an input or a gate's output; gates drive distinct
/// allocated wires, in increasing order, and read two different older wires,
/// neither of them the constant 0.
pub open spec fn wf(c: Netlist) -> bool {
    &&& c.next <= usize::MAX
    &&& c.next == 2 + c.inputs + c.gates.len()
    &&& forall|w: int| #[trigger] c.told.contains_key(w) ==> w < c.next
    &&& forall|i: int|
        0 <= i < c.gates.len() ==> {
            let g = #[trigger] c.gates[i];
            &&& 2 <= g.out() < c.next
            &&& 0 < g.left() < g.out()
            &&& 0 < g.right() < g.out()
            &&& g.left() != g.right()
        }
    &&& forall|i: int, j: int|
        0 <= i < j < c.gates.len() ==> (#[trigger] c.gates[i]).out() < (
        #[trigger] c.gates[j]).out()
}

/// `b` is `a` with more wires and more gates, the new gates driving new wires, and
/// with every value told so far kept.
#[verifier::opaque]
pub open spec fn ext(a: Netlist, b: Netlist) -> bool {
    &&& a.next <= b.next
    &&& a.gates.len() <= b.gates.len()
    &&& b.gates.take(a.gates.len() as int) == a.gates
    &&& forall|i: int|
        a.gates.len() <= i < b.gates.len() ==> a.next <= (#[trigger] b.gates[i]).out()
    &&& forall|w: int| #[trigger]
        a.told.contains_key(w) ==> b.told.contains_key(w) && b.told[w] == a.told[w]
}

/// `c` told that `wire` carries `bit`.
pub open spec fn tell(c: Netlist, wire: int, bit: bool) -> Netlist {
    Netlist { told: c.told.insert(wire, bit), ..c }
}

/// The builder was told that `wire` carries `bit`.
pub open spec fn says(c: Netlist, wire: int, bit: bool) -> bool {
    c.told.contains_key(wire) && c.told[wire] == bit
}

/// `c` with one more input.
pub open spec fn grown(c: Netlist) -> Netlist {
    Netlist { next: c.next + 1, inputs: c.inputs + 1, ..c }
}

/// `c` with a new wire driven by `g`.
pub open spec fn driven(c: Netlist, g: Operation) -> Netlist {
    Netlist { next: c.next + 1, gates: c.gates.push(g), ..c }
}

/// Emitting `x ^ y`: equal operands and the constant 0 fold away.
pub open spec fn emit_xor(c: Netlist, x: usize, y: usize) -> (Netlist, usize) {
    if x == y {
        (c, 0)
    } else if x == 0 {
        (c, y)
    } else if y == 0 {
        (c, x)
    } else {
        (driven(c, Operation::Add(c.next as usize, x, y)), c.next as usize)
    }
}

/// Emitting `x | y`: equal operands and both constants fold away.
pub open spec fn emit_or(c: Netlist, x: usize, y: usize) -> (Netlist, usize) {
    if x == y {
        (c, x)
    } else if x == 1 || y == 1 {
        (c, 1)
    } else if x == 0 {
        (c, y)
    } else if y == 0 {
        (c, x)
    } else {
        (driven(c, Operation::Or(c.next as usize, x, y)), c.next as usize)
    }
}

/// Emitting `x & y`: equal operands and both constants fold away.
pub open spec fn emit_and(c: Netlist, x: usize, y: usize) -> (Netlist, usize) {
    if x == y {
        (c, x)
    } else if x == 0 || y == 0 {
        (c, 0)
    } else if x == 1 {
        (c, y)
    } else if y == 1 {
        (c, x)
    } else {
        (driven(c, Operation::Mul(c.next as usize, x, y)), c.next as usize)
    }
}

/// The number of gates of each kind.
pub open spec fn ands(gates: Seq<Operation>) -> nat
    decreases gates.len(),
{
    if gates.len() == 0 {
        0
    } else {
        ands(gates.drop_last()) + if gates.last() is Mul {
            1nat
        } else {
            0nat
        }
    }
}

pub open spec fn xors(gates: Seq<Operation>) -> nat
    decreases gates.len(),
{
    if gates.len() == 0 {
        0
    } else {
        xors(gates.drop_last()) + if gates.last() is Add {
            1nat
        } else {
            0nat
        }
    }
}

pub open spec fn ors(gates: Seq<Operation>) -> nat
    decreases gates.len(),
{
    if gates.len() == 0 {
        0
    } else {
        ors(gates.drop_last()) + if gates.last() is Or {
            1nat
        } else {
            0nat
        }
    }
}

/// `b` has at most `n` gates that are no XOR more than `a`: AND and OR gates,
/// the ones that cost a table when the circuit is garbled.
pub open spec fn within(a: Netlist, b: Netlist, n: int) -> bool {
    ands(b.gates) + ors(b.gates) <= ands(a.gates) + ors(a.gates) + n
}

/// An XOR costs no such gate, an AND or an OR at most one.
pub proof fn lemma_emit_cost(c: Netlist, x: usize, y: usize)
    ensures
        within(c, emit_xor(c, x, y).0, 0),
        within(c, emit_and(c, x, y).0, 1),
        within(c, emit_or(c, x, y).0, 1),
{
    let (p, q, r) = (
        Operation::Add(c.next as usize, x, y),
        Operation::Mul(c.next as usize, x, y),
        Operation::Or(c.next as usize, x, y),
    );
    assert(c.gates.push(p).drop_last() =~= c.gates);
    assert(c.gates.push(q).drop_last() =~= c.gates);
    assert(c.gates.push(r).drop_last() =~= c.gates);
}

pub proof fn lemma_ext_refl(a: Netlist)
    ensures
        ext(a, a),
{
    reveal(ext);
    assert(a.gates.take(a.gates.len() as int) =~= a.gates);
}

pub broadcast proof fn lemma_ext_next(a: Netlist, b: Netlist)
    requires
        #[trigger] ext(a, b),
    ensures
        a.next <= b.next,
        a.gates.len() <= b.gates.len(),
{
    reveal(ext);
}

pub broadcast proof fn lemma_ext_trans(a: Netlist, b: Netlist, c: Netlist)
    requires
        #[trigger] ext(a, b),
        #[trigger] ext(b, c),
    ensures
        ext(a, c),
{
    reveal(ext);
    let n = a.gates.len() as int;
    assert(c.gates.take(n) =~= a.gates) by {
        assert forall|i: int| 0 <= i < n implies c.gates.take(n)[i] == a.gates[i] by {
            assert(b.gates.take(n)[i] == a.gates[i]);
            assert(c.gates.take(b.gates.len() as int)[i] == b.gates[i]);
        }
    }
    assert forall|w: int| #[trigger] a.told.contains_key(w) implies c.told.contains_key(w)
        && c.told[w] == a.told[w] by {
        assert(b.told.contains_key(w));
    }
    assert forall|i: int| n <= i < c.gates.len() implies a.next <= (
    #[trigger] c.gates[i]).out() by {
        if i < b.gates.len() {
            assert(c.gates.take(b.gates.len() as int)[i] == b.gates[i]);
        }
    }
}

proof fn lemma_run_prefix(a: Netlist, gates: Seq<Operation>, env: Env, w: int)
    requires
        a.gates.len() <= gates.len(),
        gates.take(a.gates.len() as int) == a.gates,
        forall|i: int| a.gates.len() <= i < gates.len() ==> a.next <= (#[trigger] gates[i]).out(),
        w < a.next,
    ensures
        run(gates, env)(w) == run(a.gates, env)(w),
    decreases gates.len(),
{
    if gates.len() == a.gates.len() {
        assert(gates.take(a.gates.len() as int) =~= gates);
    } else {
        let shorter = gates.drop_last();
        assert(shorter.take(a.gates.len() as int) =~= gates.take(a.gates.len() as int));
        lemma_run_prefix(a, shorter, env, w);
    }
}

/// Emitting gates leaves the value of every older wire alone.
pub broadcast proof fn lemma_ext_value(a: Netlist, b: Netlist, env: Env, w: int)
    requires
        #[trigger] ext(a, b),
        w < a.next,
    ensures
        #[trigger] value(b, env, w) == value(a, env, w),
{
    reveal(ext);
    lemma_run_prefix(a, b.gates, env, w);
}

pub broadcast proof fn lemma_ext_bits(a: Netlist, b: Netlist, env: Env, ws: Seq<usize>)
    requires
        #[trigger] ext(a, b),
        below(ws, a.next),
    ensures
        #[trigger] bits(b, env, ws) == bits(a, env, ws),
{
    assert forall|i: int| 0 <= i < ws.len() implies bits(b, env, ws)[i] == bits(a, env, ws)[i] by {
        lemma_ext_value(a, b, env, ws[i] as int);
    }
    assert(bits(b, env, ws) =~= bits(a, env, ws));
}

pub broadcast proof fn lemma_below_monotone(ws: Seq<usize>, n: nat, m: nat)
    requires
        #[trigger] below(ws, n),
        n <= m,
    ensures
        #[trigger] below(ws, m),
{
}

pub broadcast proof fn lemma_all_below_monotone(ws: Seq<Vec<usize>>, len: nat, n: nat, m: nat)
    requires
        #[trigger] all_below(ws, len, n),
        n <= m,
    ensures
        #[trigger] all_below(ws, len, m),
{
}

pub broadcast proof fn lemma_ext_words(
    a: Netlist,
    b: Netlist,
    env: Env,
    ws: Seq<Vec<usize>>,
    len: nat,
)
    requires
        #[trigger] ext(a, b),
        #[trigger] all_below(ws, len, a.next),
    ensures
        #[trigger] words(b, env, ws) == words(a, env, ws),
{
    assert forall|i: int| 0 <= i < ws.len() implies words(b, env, ws)[i] == words(
        a,
        env,
        ws,
    )[i] by {
        lemma_ext_bits(a, b, env, ws[i]@);
    }
    assert(words(b, env, ws) =~= words(a, env, ws));
}

pub broadcast proof fn lemma_bits_len(c: Netlist, env: Env, ws: Seq<usize>)
    ensures
        (#[trigger] bits(c, env, ws)).len() == ws.len(),
{
}

pub broadcast group group_netlist {
    lemma_ext_next,
    lemma_ext_trans,
    lemma_ext_value,
    lemma_ext_bits,
    lemma_ext_words,
    lemma_below_monotone,
    lemma_all_below_monotone,
    lemma_bits_len,
}

/// What a builder emits is in order: the wires are the two constants, the inputs
/// asked for and one per gate; a gate drives a newer wire than those it reads and
/// than every gate before it; its operands differ and neither is the constant 0.
pub proof fn law_netlist_in_order(c: Netlist, i: int, j: int)
    requires
        wf(c),
        0 <= i < j < c.gates.len(),
    ensures
        c.next == 2 + c.inputs + c.gates.len(),
        c.gates[i].out() < c.gates[j].out() < c.next,
        2 <= c.gates[i].out(),
        0 < c.gates[j].left() < c.gates[j].out(),
        0 < c.gates[j].right() < c.gates[j].out(),
        c.gates[j].left() != c.gates[j].right(),
{
}

/// A request for a wire adds an input; a gate adds none, folded or not.
pub proof fn law_only_requests_add_inputs(c: Netlist, x: usize, y: usize)
    ensures
        grown(c).inputs == c.inputs + 1,
        emit_xor(c, x, y).0.inputs == c.inputs,
        emit_or(c, x, y).0.inputs == c.inputs,
        emit_and(c, x, y).0.inputs == c.inputs,
{
}

/// The constant wires carry their constants in every well-formed netlist.
pub proof fn lemma_constants(c: Netlist, env: Env)
    requires
        wf(c),
    ensures
        value(c, env, 0) == false,
        value(c, env, 1) == true,
    decreases c.gates.len(),
{
    if c.gates.len() > 0 {
        let shorter = Netlist {
            next: c.next,
            inputs: c.inputs + 1,
            gates: c.gates.drop_last(),
            told: c.told,
        };
        lemma_constants(shorter, env);
        assert(c.gates[c.gates.len() - 1].out() >= 2);
    }
}

/// A wire that no gate drives keeps its input value.
pub proof fn lemma_input(c: Netlist, env: Env, w: int)
    requires
        w >= 2,
        forall|i: int| 0 <= i < c.gates.len() ==> (#[trigger] c.gates[i]).out() != w,
    ensures
        value(c, env, w) == env(w),
    decreases c.gates.len(),
{
    if c.gates.len() > 0 {
        let shorter = Netlist {
            next: c.next,
            inputs: c.inputs + 1,
            gates: c.gates.drop_last(),
            told: c.told,
        };
        assert forall|i: int| 0 <= i < shorter.gates.len() implies (
        #[trigger] shorter.gates[i]).out() != w by {
            assert(c.gates[i].out() != w);
        }
        lemma_input(shorter, env, w);
        assert(c.gates[c.gates.len() - 1].out() != w);
    }
}

pub proof fn lemma_grown(c: Netlist)
    requires
        wf(c),
        c.next < usize::MAX,
    ensures
        wf(grown(c)),
        ext(c, grown(c)),
        forall|env: Env| #[trigger] value(grown(c), env, c.next as int) == env(c.next as int),
{
    reveal(ext);
    assert(c.gates.take(c.gates.len() as int) =~= c.gates);
    assert forall|env: Env| #[trigger]
        value(grown(c), env, c.next as int) == env(c.next as int) by {
        lemma_input(grown(c), env, c.next as int);
    }
}

/// Telling the value of a wire that nothing was told of.
pub proof fn lemma_tell(c: Netlist, wire: int, bit: bool)
    requires
        wf(c),
        wire < c.next,
        !c.told.contains_key(wire),
    ensures
        wf(tell(c, wire, bit)),
        ext(c, tell(c, wire, bit)),
        forall|env: Env, w: int| #[trigger]
            value(tell(c, wire, bit), env, w) == value(c, env, w),
{
    reveal(ext);
    assert(c.gates.take(c.gates.len() as int) =~= c.gates);
}

/// What was told stays told.
pub proof fn lemma_ext_told(a: Netlist, b: Netlist, w: int)
    requires
        ext(a, b),
        a.told.contains_key(w),
    ensures
        b.told.contains_key(w),
        b.told[w] == a.told[w],
{
    reveal(ext);
}

pub proof fn lemma_driven(c: Netlist, g: Operation)
    requires
        wf(c),
        c.next < usize::MAX,
        g.out() == c.next,
        0 < g.left() < c.next,
        0 < g.right() < c.next,
        g.left() != g.right(),
    ensures
        wf(driven(c, g)),
        ext(c, driven(c, g)),
        forall|env: Env| #[trigger]
            value(driven(c, g), env, c.next as int) == g.table(
                value(c, env, g.left()),
                value(c, env, g.right()),
            ),
{
    reveal(ext);
    let d = driven(c, g);
    assert(d.gates.take(c.gates.len() as int) =~= c.gates);
    assert(d.gates.drop_last() =~= c.gates);
    assert forall|i: int, j: int| 0 <= i < j < d.gates.len() implies (
    #[trigger] d.gates[i]).out() < (#[trigger] d.gates[j]).out() by {
        assert(d.gates[i] == c.gates[i]);
    }
}

/// The emitted XOR carries the exclusive or of its operands.
pub proof fn lemma_emit_xor(c: Netlist, x: usize, y: usize)
    requires
        wf(c),
        c.next < usize::MAX || emit_xor(c, x, y).0 == c,
        x < c.next,
        y < c.next,
    ensures
        wf(emit_xor(c, x, y).0),
        ext(c, emit_xor(c, x, y).0),
        emit_xor(c, x, y).1 < emit_xor(c, x, y).0.next,
        forall|env: Env| #[trigger]
            value(emit_xor(c, x, y).0, env, emit_xor(c, x, y).1 as int) == (value(
                c,
                env,
                x as int,
            ) != value(c, env, y as int)),
{
    lemma_ext_refl(c);
    assert forall|env: Env| #[trigger] value(c, env, 0) == false by {
        lemma_constants(c, env);
    }
    if x != y && x != 0 && y != 0 {
        lemma_driven(c, Operation::Add(c.next as usize, x, y));
    }
}

/// The emitted OR carries the disjunction of its operands.
pub proof fn lemma_emit_or(c: Netlist, x: usize, y: usize)
    requires
        wf(c),
        c.next < usize::MAX || emit_or(c, x, y).0 == c,
        x < c.next,
        y < c.next,
    ensures
        wf(emit_or(c, x, y).0),
        ext(c, emit_or(c, x, y).0),
        emit_or(c, x, y).1 < emit_or(c, x, y).0.next,
        forall|env: Env| #[trigger]
            value(emit_or(c, x, y).0, env, emit_or(c, x, y).1 as int) == (value(c, env, x as int)
                || value(c, env, y as int)),
{
    lemma_ext_refl(c);
    assert forall|env: Env| true implies #[trigger] value(c, env, 0) == false && value(c, env, 1) == true by {
        lemma_constants(c, env);
    }
    assert forall|env: Env| #[trigger] value(c, env, 1) == true by {
        lemma_constants(c, env);
    }
    if x != y && x > 1 && y > 1 {
        lemma_driven(c, Operation::Or(c.next as usize, x, y));
    }
}

/// The emitted AND carries the conjunction of its operands.
pub proof fn lemma_emit_and(c: Netlist, x: usize, y: usize)
    requires
        wf(c),
        c.next < usize::MAX || emit_and(c, x, y).0 == c,
        x < c.next,
        y < c.next,
    ensures
        wf(emit_and(c, x, y).0),
        ext(c, emit_and(c, x, y).0),
        emit_and(c, x, y).1 < emit_and(c, x, y).0.next,
        forall|env: Env| #[trigger]
            value(emit_and(c, x, y).0, env, emit_and(c, x, y).1 as int) == (value(c, env, x as int)
                && value(c, env, y as int)),
{
    lemma_ext_refl(c);
    assert forall|env: Env| #[trigger] value(c, env, 0) == false by {
        lemma_constants(c, env);
    }
    assert forall|env: Env| #[trigger] value(c, env, 1) == true by {
        lemma_constants(c, env);
    }
    if x != y && x > 1 && y > 1 {
        lemma_driven(c, Operation::Mul(c.next as usize, x, y));
    }
}

} // verus!

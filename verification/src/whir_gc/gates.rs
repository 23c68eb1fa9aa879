//! The circuit builder interface, the stored-gate builder and the garbling
//! label.
//!
//! - [`CircuitTrait`] builds circuits over wire indices: wires 0 and 1 are the
//!   constants, inputs follow, and gates return fresh wires unless their
//!   operands fold.
//! - [`CircuitAdapter`] keeps the gates, for evaluation and for garbling.
//! - [`S`] is a 16-byte label, with [`S::hash_ext`] the Blake3-based gate PRF.
use super::hash;
use super::netlist;
use super::netlist::{Env, Netlist};
use vstd::prelude::*;

pub use super::netlist::Operation;

verus! {

broadcast use netlist::group_netlist;

/// A builder of boolean circuits over wire indices.
pub trait CircuitTrait: Sized {
    /// The circuit built so far.
    spec fn view(&self) -> Netlist;

    /// The builder's invariant, which makes its netlist well formed.
    spec fn inv(&self) -> bool;

    proof fn lemma_inv(&self)
        requires
            self.inv(),
        ensures
            netlist::wf(self@),
    ;

    /// A fresh wire (an input, when allocated before any gate).
    fn fresh_one(&mut self) -> (w: usize)
        requires
            old(self).inv(),
        ensures
            final(self).inv(),
            w == old(self)@.next,
            final(self)@ == netlist::grown(old(self)@),
            netlist::ext(old(self)@, final(self)@),
            forall|env: Env| #[trigger] netlist::value(final(self)@, env, w as int) == env(w as int),
    ;

    /// `N` fresh wires, in increasing order.
    fn fresh<const N: usize>(&mut self) -> (ws: [usize; N])
        requires
            old(self).inv(),
        ensures
            final(self).inv(),
            forall|i: int| 0 <= i < N ==> #[trigger] ws@[i] == old(self)@.next + i,
            final(self)@.next == old(self)@.next + N,
            final(self)@.gates == old(self)@.gates,
            netlist::ext(old(self)@, final(self)@),
            forall|env: Env, i: int|
                0 <= i < N ==> #[trigger] netlist::value(final(self)@, env, ws@[i] as int) == env(
                    ws@[i] as int,
                ),
    {
        let mut ws: [usize; N] = [0usize; N];
        let mut i: usize = 0;
        let ghost first = self@;
        proof {
            netlist::lemma_ext_refl(first);
        }
        while i < N
            invariant
                i <= N,
                self.inv(),
                ws@.len() == N,
                forall|j: int| 0 <= j < i ==> #[trigger] ws@[j] == first.next + j,
                self@.next == first.next + i,
                self@.gates == first.gates,
                netlist::ext(first, self@),
                forall|env: Env, j: int|
                    0 <= j < i ==> #[trigger] netlist::value(self@, env, ws@[j] as int) == env(
                        ws@[j] as int,
                    ),
            decreases N - i,
        {
            let ghost before = self@;
            let ghost ws0 = ws@;
            let w = self.fresh_one();
            ws[i] = w;
            proof {
                assert forall|env: Env, j: int| 0 <= j < i + 1 implies #[trigger] netlist::value(
                    self@,
                    env,
                    ws@[j] as int,
                ) == env(ws@[j] as int) by {
                    if j < i {
                        assert(ws@[j] == ws0[j]);
                        assert(netlist::value(before, env, ws0[j] as int) == env(ws0[j] as int));
                    }
                }
            }
            i = i + 1;
        }
        ws
    }

    /// The constant-0 wire.
    fn zero(&mut self) -> (w: usize)
        requires
            old(self).inv(),
        ensures
            final(self).inv(),
            final(self)@ == old(self)@,
            w == 0,
    ;

    /// The constant-1 wire.
    fn one(&mut self) -> (w: usize)
        requires
            old(self).inv(),
        ensures
            final(self).inv(),
            final(self)@ == old(self)@,
            w == 1,
    ;

    /// `x ^ y`.
    fn xor_wire(&mut self, x: usize, y: usize) -> (w: usize)
        requires
            old(self).inv(),
            x < old(self)@.next,
            y < old(self)@.next,
        ensures
            final(self).inv(),
            (final(self)@, w) == netlist::emit_xor(old(self)@, x, y),
            netlist::ext(old(self)@, final(self)@),
            w < final(self)@.next,
            forall|env: Env| #[trigger]
                netlist::value(final(self)@, env, w as int) == (netlist::value(
                    old(self)@,
                    env,
                    x as int,
                ) != netlist::value(old(self)@, env, y as int)),
    ;

    /// `x | y`.
    fn or_wire(&mut self, x: usize, y: usize) -> (w: usize)
        requires
            old(self).inv(),
            x < old(self)@.next,
            y < old(self)@.next,
        ensures
            final(self).inv(),
            (final(self)@, w) == netlist::emit_or(old(self)@, x, y),
            netlist::ext(old(self)@, final(self)@),
            w < final(self)@.next,
            forall|env: Env| #[trigger]
                netlist::value(final(self)@, env, w as int) == (netlist::value(
                    old(self)@,
                    env,
                    x as int,
                ) || netlist::value(old(self)@, env, y as int)),
    ;

    /// `x & y`.
    fn and_wire(&mut self, x: usize, y: usize) -> (w: usize)
        requires
            old(self).inv(),
            x < old(self)@.next,
            y < old(self)@.next,
        ensures
            final(self).inv(),
            (final(self)@, w) == netlist::emit_and(old(self)@, x, y),
            netlist::ext(old(self)@, final(self)@),
            w < final(self)@.next,
            forall|env: Env| #[trigger]
                netlist::value(final(self)@, env, w as int) == (netlist::value(
                    old(self)@,
                    env,
                    x as int,
                ) && netlist::value(old(self)@, env, y as int)),
    ;

    /// The gates emitted so far, by kind.
    fn gate_counts(&self) -> (c: GateCounts)
        requires
            self.inv(),
        ensures
            c.direct_and == netlist::ands(self@.gates),
            c.direct_xor == netlist::xors(self@.gates),
            c.direct_or == netlist::ors(self@.gates),
    ;

    /// The next wire index a `fresh_one` would return.
    fn next_wire(&self) -> (w: usize)
        requires
            self.inv(),
        ensures
            w == self@.next,
    ;
}

/// A builder that may also be told the values on its input wires.
pub trait ValuedBuilder: CircuitTrait {
    /// The input `wire` carries `bit`; the wires and gates stay as they are.
    fn set_input(&mut self, wire: usize, bit: bool)
        requires
            old(self).inv(),
            wire < old(self)@.next,
        ensures
            final(self).inv(),
            final(self)@ == netlist::tell(old(self)@, wire as int, bit),
    ;
}

/// Gates emitted so far, by kind. XOR is free under free-XOR garbling; the
/// AND and OR gates are the non-free ones.
#[derive(Clone, Copy, Debug, PartialEq, Eq, Structural)]
pub struct GateCounts {
    pub direct_and: usize,
    pub direct_xor: usize,
    pub direct_or: usize,
}

impl Default for GateCounts {
    fn default() -> (c: Self)
        ensures
            c.direct_and == 0,
            c.direct_xor == 0,
            c.direct_or == 0,
    {
        GateCounts { direct_and: 0, direct_xor: 0, direct_or: 0 }
    }
}

impl GateCounts {
    /// The gates that cost a ciphertext.
    pub fn non_free(&self) -> (n: usize)
        requires
            self.direct_and + self.direct_or <= usize::MAX,
        ensures
            n == self.direct_and + self.direct_or,
    {
        self.direct_and + self.direct_or
    }
}

/// The stored-gate builder: wires 0 and 1 are the constants, then inputs,
/// then gate outputs, and all gates are kept in order for evaluation and garbling.
#[derive(Clone)]
pub struct CircuitAdapter {
    /// One entry per allocated wire, so the length is the next wire index.
    wires: Vec<()>,
    gates: Vec<Operation>,
    told: Ghost<Map<int, bool>>,
}

impl Default for CircuitAdapter {
    fn default() -> (b: Self)
        ensures
            b.inv(),
            b@.next == 2,
            b@.inputs == 0,
            b@.gates == Seq::<Operation>::empty(),
            b@.told == Map::<int, bool>::empty(),
    {
        let mut wires: Vec<()> = Vec::new();
        wires.push(());
        wires.push(());
        let b = CircuitAdapter { wires, gates: Vec::new(), told: Ghost(Map::empty()) };
        assert(b@.gates =~= Seq::<Operation>::empty());
        b
    }
}

/// The number of gates is at least the number of each kind.
proof fn lemma_counts_bounded(gates: Seq<Operation>)
    ensures
        netlist::ands(gates) + netlist::xors(gates) + netlist::ors(gates) == gates.len(),
    decreases gates.len(),
{
    if gates.len() > 0 {
        lemma_counts_bounded(gates.drop_last());
    }
}

impl CircuitAdapter {
    /// The stored gates, in the order they were emitted.
    pub fn get_gates(&self) -> (gates: &Vec<Operation>)
        ensures
            gates@ == self@.gates,
    {
        &self.gates
    }

    /// Every wire's value, the inputs taken from `witness` at wires `2..` and
    /// the inputs past the witness false.
    pub fn eval_gates(&self, witness: &[bool]) -> (w: Vec<bool>)
        requires
            self.inv(),
            2 + witness@.len() <= self@.next,
        ensures
            w@.len() == self@.next,
            forall|i: int|
                0 <= i < self@.next ==> #[trigger] w@[i] == netlist::value(
                    self@,
                    witness_env(witness@),
                    i,
                ),
    {
        let n = self.wires.len();
        let ghost env = witness_env(witness@);
        let mut w: Vec<bool> = Vec::new();
        w.push(false);
        w.push(true);
        let mut i: usize = 0;
        while i < witness.len()
            invariant
                i <= witness@.len(),
                w@.len() == 2 + i,
                2 + witness@.len() <= n,
                env == witness_env(witness@),
                forall|j: int| 0 <= j < w@.len() ==> #[trigger] w@[j] == netlist::base(env)(j),
            decreases witness@.len() - i,
        {
            w.push(witness[i]);
            i = i + 1;
        }
        while w.len() < n
            invariant
                2 + witness@.len() <= w@.len() <= n,
                env == witness_env(witness@),
                forall|j: int| 0 <= j < w@.len() ==> #[trigger] w@[j] == netlist::base(env)(j),
            decreases n - w@.len(),
        {
            w.push(false);
        }
        let mut k: usize = 0;
        assert(self@.gates.take(0) =~= Seq::<Operation>::empty());
        while k < self.gates.len()
            invariant
                self.inv(),
                n == self@.next,
                k <= self@.gates.len(),
                w@.len() == n,
                forall|j: int|
                    0 <= j < n ==> #[trigger] w@[j] == netlist::run(
                        self@.gates.take(k as int),
                        env,
                    )(j),
            decreases self@.gates.len() - k,
        {
            let ghost before = self@.gates.take(k as int);
            let ghost after = self@.gates.take(k + 1);
            assert(after.drop_last() =~= before);
            assert(after.last() == self@.gates[k as int]);
            match self.gates[k] {
                Operation::Add(d, x, y) => {
                    let v = w[x] != w[y];
                    w.set(d, v);
                },
                Operation::Mul(d, x, y) => {
                    let v = w[x] && w[y];
                    w.set(d, v);
                },
                Operation::Or(d, x, y) => {
                    let v = w[x] || w[y];
                    w.set(d, v);
                },
            }
            k = k + 1;
        }
        assert(self@.gates.take(k as int) =~= self@.gates);
        w
    }
}

/// The inputs that put `witness` on the wires from 2 on, and false elsewhere.
pub open spec fn witness_env(witness: Seq<bool>) -> Env {
    |w: int| 2 <= w < 2 + witness.len() && witness[w - 2]
}

impl CircuitTrait for CircuitAdapter {
    closed spec fn view(&self) -> Netlist {
        Netlist {
            next: self.wires@.len(),
            inputs: (self.wires@.len() - 2 - self.gates@.len()) as nat,
            gates: self.gates@,
            told: self.told@,
        }
    }

    closed spec fn inv(&self) -> bool {
        netlist::wf(self@)
    }

    proof fn lemma_inv(&self) {
    }

    fn fresh_one(&mut self) -> usize {
        let w = self.wires.len();
        self.wires.push(());
        proof {
            assert(self.wires.len() == self.wires@.len());
            netlist::lemma_grown(old(self)@);
        }
        w
    }

    fn zero(&mut self) -> usize {
        0
    }

    fn one(&mut self) -> usize {
        1
    }

    fn xor_wire(&mut self, x: usize, y: usize) -> usize {
        let ghost first = self@;
        if x == y || x == 0 || y == 0 {
            proof {
                netlist::lemma_emit_xor(first, x, y);
            }
            return if x == y {
                0
            } else if x == 0 {
                y
            } else {
                x
            };
        }
        let d = self.fresh_one();
        self.gates.push(Operation::Add(d, x, y));
        proof {
            netlist::lemma_emit_xor(first, x, y);
        }
        d
    }

    fn or_wire(&mut self, x: usize, y: usize) -> usize {
        let ghost first = self@;
        if x == y || x <= 1 || y <= 1 {
            proof {
                netlist::lemma_emit_or(first, x, y);
            }
            return if x == y {
                x
            } else if x == 1 || y == 1 {
                1
            } else if x == 0 {
                y
            } else {
                x
            };
        }
        let d = self.fresh_one();
        self.gates.push(Operation::Or(d, x, y));
        proof {
            netlist::lemma_emit_or(first, x, y);
        }
        d
    }

    fn and_wire(&mut self, x: usize, y: usize) -> usize {
        let ghost first = self@;
        if x == y || x <= 1 || y <= 1 {
            proof {
                netlist::lemma_emit_and(first, x, y);
            }
            return if x == y {
                x
            } else if x == 0 || y == 0 {
                0
            } else if x == 1 {
                y
            } else {
                x
            };
        }
        let d = self.fresh_one();
        self.gates.push(Operation::Mul(d, x, y));
        proof {
            netlist::lemma_emit_and(first, x, y);
        }
        d
    }

    fn gate_counts(&self) -> GateCounts {
        let mut c = GateCounts::default();
        let mut k: usize = 0;
        assert(self@.gates.take(0) =~= Seq::<Operation>::empty());
        while k < self.gates.len()
            invariant
                k <= self@.gates.len(),
                c.direct_and == netlist::ands(self@.gates.take(k as int)),
                c.direct_xor == netlist::xors(self@.gates.take(k as int)),
                c.direct_or == netlist::ors(self@.gates.take(k as int)),
            decreases self@.gates.len() - k,
        {
            let ghost after = self@.gates.take(k + 1);
            proof {
                assert(after.drop_last() =~= self@.gates.take(k as int));
                assert(after.last() == self@.gates[k as int]);
                lemma_counts_bounded(self@.gates.take(k as int));
            }
            match self.gates[k] {
                Operation::Add(_, _, _) => {
                    c.direct_xor = c.direct_xor + 1;
                },
                Operation::Mul(_, _, _) => {
                    c.direct_and = c.direct_and + 1;
                },
                Operation::Or(_, _, _) => {
                    c.direct_or = c.direct_or + 1;
                },
            }
            k = k + 1;
        }
        assert(self@.gates.take(k as int) =~= self@.gates);
        c
    }

    fn next_wire(&self) -> usize {
        self.wires.len()
    }
}

impl ValuedBuilder for CircuitAdapter {
    /// The stored circuit is evaluated later, on a witness of its own; what it was
    /// told is kept for proofs only.
    fn set_input(&mut self, wire: usize, bit: bool) {
        self.told = Ghost(self.told@.insert(wire as int, bit));
        assert(self@ == netlist::tell(old(self)@, wire as int, bit));
        assert forall|w: int| #[trigger] self@.told.contains_key(w) implies w < self@.next by {
            if w != wire {
                assert(old(self)@.told.contains_key(w));
            }
        }
    }
}

pub const LABEL_SIZE: usize = 16;

/// A garbling label: 16 bytes.
#[derive(Clone, Copy, Debug, PartialEq, Eq, Hash)]
pub struct S(pub [u8; LABEL_SIZE]);

impl Default for S {
    fn default() -> (l: Self)
        ensures
            l@ == Seq::new(LABEL_SIZE as nat, |i: int| 0u8),
    {
        S::zero()
    }
}

impl View for S {
    type V = Seq<u8>;

    open spec fn view(&self) -> Seq<u8> {
        self.0@
    }
}

/// The bytewise exclusive or of two labels.
pub open spec fn xor_bytes(x: Seq<u8>, y: Seq<u8>) -> Seq<u8> {
    Seq::new(x.len(), |i: int| x[i] ^ y[i])
}

/// The four bytes of `v`, least significant first.
pub open spec fn le_bytes4(v: u32) -> Seq<u8> {
    seq![
        (v % 256) as u8,
        (v / 256 % 256) as u8,
        (v / 65536 % 256) as u8,
        (v / 16777216 % 256) as u8,
    ]
}

/// The label PRF on label bytes: the first 16 bytes of the Blake3 digest of the
/// label followed by an index of a gate.
pub open spec fn prf(label: Seq<u8>, gid: u32) -> Seq<u8> {
    Seq::new(LABEL_SIZE as nat, |i: int| hash::digest(label + le_bytes4(gid))[i])
}

impl S {
    /// The label holding `bytes`.
    pub fn from_slice(bytes: &[u8]) -> (l: Self)
        requires
            bytes@.len() == LABEL_SIZE,
        ensures
            l@ == bytes@,
    {
        let mut out: [u8; LABEL_SIZE] = [0u8; LABEL_SIZE];
        let mut i: usize = 0;
        while i < LABEL_SIZE
            invariant
                i <= LABEL_SIZE,
                bytes@.len() == LABEL_SIZE,
                forall|j: int| 0 <= j < i ==> #[trigger] out@[j] == bytes@[j],
            decreases LABEL_SIZE - i,
        {
            out[i] = bytes[i];
            i = i + 1;
        }
        assert(out@ =~= bytes@);
        S(out)
    }

    /// The all-zero label.
    pub fn zero() -> (l: Self)
        ensures
            l@ == Seq::new(LABEL_SIZE as nat, |i: int| 0u8),
    {
        let out: [u8; LABEL_SIZE] = [0u8; LABEL_SIZE];
        assert(out@ =~= Seq::new(LABEL_SIZE as nat, |i: int| 0u8));
        S(out)
    }

    /// A label of fresh random bytes.
    pub fn random() -> (l: Self)
        ensures
            l@.len() == LABEL_SIZE,
    {
        S(random_bytes())
    }

    /// The label PRF: `Blake3(label || gid as 4 little-endian bytes)`, first 16
    /// bytes.
    pub fn hash_ext(&self, gid: u32) -> (l: Self)
        ensures
            l@ == prf(self@, gid),
    {
        let mut input: Vec<u8> = Vec::new();
        let mut i: usize = 0;
        while i < LABEL_SIZE
            invariant
                i <= LABEL_SIZE,
                input@ == self@.take(i as int),
            decreases LABEL_SIZE - i,
        {
            input.push(self.0[i]);
            assert(self@.take(i + 1) =~= self@.take(i as int).push(self@[i as int]));
            i = i + 1;
        }
        input.push((gid % 256) as u8);
        input.push((gid / 256 % 256) as u8);
        input.push((gid / 65536 % 256) as u8);
        input.push((gid / 16777216 % 256) as u8);
        assert(input@ =~= self@ + le_bytes4(gid));
        let digest = hash::blake3_digest(input.as_slice());
        let mut out: [u8; LABEL_SIZE] = [0u8; LABEL_SIZE];
        let mut k: usize = 0;
        while k < LABEL_SIZE
            invariant
                k <= LABEL_SIZE,
                forall|j: int| 0 <= j < k ==> #[trigger] out@[j] == digest@[j],
            decreases LABEL_SIZE - k,
        {
            out[k] = digest[k];
            k = k + 1;
        }
        assert(out@ =~= prf(self@, gid));
        S(out)
    }
}

impl core::ops::BitXor for S {
    type Output = S;

    fn bitxor(self, rhs: S) -> (l: S)
        ensures
            l@ == xor_bytes(self@, rhs@),
    {
        let mut out: [u8; LABEL_SIZE] = self.0;
        let mut i: usize = 0;
        while i < LABEL_SIZE
            invariant
                i <= LABEL_SIZE,
                forall|j: int| 0 <= j < i ==> #[trigger] out@[j] == self@[j] ^ rhs@[j],
                forall|j: int| i <= j < LABEL_SIZE ==> #[trigger] out@[j] == self@[j],
            decreases LABEL_SIZE - i,
        {
            out[i] = out[i] ^ rhs.0[i];
            i = i + 1;
        }
        assert(out@ =~= xor_bytes(self@, rhs@));
        S(out)
    }
}

/// What `^` returns stands on `bitxor` itself, over the labels' views.
impl vstd::std_specs::ops::BitXorSpecImpl for S {
    open spec fn obeys_bitxor_spec() -> bool {
        false
    }

    open spec fn bitxor_req(self, rhs: S) -> bool {
        true
    }

    open spec fn bitxor_spec(self, rhs: S) -> S {
        self
    }
}

/// Fresh randomness from the thread-local generator of `rand` (`rand::rng`),
/// which the operating system seeds; nothing is claimed of the bytes.
#[verifier::external_body]
pub fn random_bytes<const N: usize>() -> [u8; N] {
    let mut out = [0u8; N];
    rand::RngCore::fill_bytes(&mut rand::rng(), &mut out);
    out
}

} // verus!

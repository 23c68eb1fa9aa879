//! The hash challenger over wires: the input buffer is hashed whole on refill,
//! the digest chains into the input, and bytes are popped from the digest's
//! end.
use super::blake3;
use super::bytes;
use super::field;
use super::gates::CircuitTrait;
use super::netlist;
use super::netlist::{Env, Netlist};
use super::protocol;
use super::protocol::{Buffers, ByteHash, Machine};
use super::tower;
use super::wires;
use super::wires::{elem_ok, elems_ok, Elem};
use vstd::prelude::*;

verus! {

broadcast use netlist::group_netlist;

/// The hash that the circuit computes.
pub open spec fn gadget_hash() -> ByteHash {
    |m: Seq<u8>| blake3::hash_bytes(m)
}

/// The challenger over that hash.
pub open spec fn gadget_machine() -> Machine<Buffers> {
    protocol::hash_machine(gadget_hash())
}

/// The bytes on a vector of wires, eight to a byte.
pub open spec fn wire_bytes(c: Netlist, env: Env, ws: Seq<usize>) -> Seq<u8> {
    bytes::bytes_of_bits(netlist::bits(c, env, ws))
}

/// Absorbing bytes appends them and, unless there are none, drops what was
/// left to draw.
pub proof fn lemma_absorb_all(h: ByteHash, s: Buffers, b: Seq<u8>)
    ensures
        protocol::absorb_all(protocol::hash_machine(h), s, b) == (if b.len() == 0 {
            s
        } else {
            Buffers { input: s.input + b, output: Seq::empty(), flushes: s.flushes }
        }),
    decreases b.len(),
{
    if b.len() > 0 {
        let m = protocol::hash_machine(h);
        lemma_absorb_all(h, s, b.drop_last());
        let before = protocol::absorb_all(m, s, b.drop_last());
        let after = protocol::absorb_all(m, s, b);
        assert(after == protocol::buffers_absorb(before, b.last()));
        assert(after.input =~= s.input + b);
    }
}

/// Splitting off the last byte.
pub proof fn lemma_last_byte(x: Seq<bool>)
    requires
        x.len() % 8 == 0,
        x.len() > 0,
    ensures
        bytes::bytes_of_bits(x).len() == x.len() / 8,
        bytes::bytes_of_bits(x).drop_last() == bytes::bytes_of_bits(x.take(x.len() - 8)),
        bytes::bytes_of_bits(x).last() == bytes::byte_of(x.skip(x.len() - 8)),
{
    let y = x.take(x.len() - 8);
    let l = bytes::bytes_of_bits(x).drop_last();
    let r = bytes::bytes_of_bits(y);
    assert forall|i: int| 0 <= i < r.len() implies l[i] == r[i] by {
        assert(x.subrange(8 * i, 8 * i + 8) =~= y.subrange(8 * i, 8 * i + 8));
    }
    assert(l =~= r);
    let k = x.len() / 8 - 1;
    assert(x.subrange(8 * k, 8 * k + 8) =~= x.skip(x.len() - 8));
}

/// One byte of eight bits.
pub proof fn lemma_one_byte(x: Seq<bool>)
    requires
        x.len() == 8,
    ensures
        bytes::bytes_of_bits(x) == seq![bytes::byte_of(x)],
{
    assert(x.subrange(0, 8) =~= x);
    assert(bytes::bytes_of_bits(x) =~= seq![bytes::byte_of(x)]);
}

/// The challenger's buffers as wires.
pub struct Sponge {
    input: Vec<usize>,
    output: Vec<usize>,
    /// One entry per refill.
    flushed: Vec<()>,
}

impl Sponge {
    pub closed spec fn wf(self, n: nat) -> bool {
        &&& self.input@.len() % 8 == 0
        &&& self.output@.len() % 8 == 0
        &&& netlist::below(self.input@, n)
        &&& netlist::below(self.output@, n)
    }

    /// The buffers' bytes.
    pub closed spec fn st(self, c: Netlist, env: Env) -> Buffers {
        Buffers {
            input: wire_bytes(c, env, self.input@),
            output: wire_bytes(c, env, self.output@),
            flushes: self.flushed@.len(),
        }
    }
}

/// Emitting gates leaves the buffers alone.
pub broadcast proof fn lemma_sponge_ext(s: Sponge, a: Netlist, b: Netlist, env: Env)
    requires
        #[trigger] netlist::ext(a, b),
        s.wf(a.next),
    ensures
        #[trigger] s.st(b, env) == s.st(a, env),
{
}

pub broadcast proof fn lemma_sponge_wf(s: Sponge, n: nat, m: nat)
    requires
        #[trigger] s.wf(n),
        n <= m,
    ensures
        #[trigger] s.wf(m),
{
}

impl Sponge {
    pub(crate) fn new() -> (s: Self)
        ensures
            forall|n: nat| #[trigger] s.wf(n),
            forall|c: Netlist, env: Env| #[trigger] s.st(c, env) == protocol::empty_buffers(),
    {
        let s = Sponge { input: Vec::new(), output: Vec::new(), flushed: Vec::new() };
        proof {
            assert forall|c: Netlist, env: Env| #[trigger] s.st(c, env)
                == protocol::empty_buffers() by {
                assert(s.st(c, env).input =~= Seq::<u8>::empty());
                assert(s.st(c, env).output =~= Seq::<u8>::empty());
            }
        }
        s
    }

    /// The number of times the input was hashed.
    pub fn flushes(&self) -> (n: usize)
        ensures
            forall|c: Netlist, env: Env| #[trigger] self.st(c, env).flushes == n,
    {
        self.flushed.len()
    }

    /// Absorb bytes.
    pub(crate) fn observe(&mut self, ws: &[usize])
        requires
            ws@.len() % 8 == 0,
        ensures
            forall|n: nat|
                old(self).wf(n) && netlist::below(ws@, n) ==> #[trigger] final(self).wf(n),
            forall|c: Netlist, env: Env|
                old(self).wf(c.next) ==> #[trigger] final(self).st(c, env)
                    == protocol::absorb_all(
                    gadget_machine(),
                    old(self).st(c, env),
                    wire_bytes(c, env, ws@),
                ),
    {
        let ghost in0 = self.input@;
        let ghost out0 = self.output@;
        if ws.len() > 0 {
            self.output.clear();
            let mut more = tower::copied(ws);
            self.input.append(&mut more);
        }
        proof {
            assert forall|c: Netlist, env: Env| old(self).wf(c.next) implies #[trigger] self.st(
                c,
                env,
            ) == protocol::absorb_all(
                gadget_machine(),
                old(self).st(c, env),
                wire_bytes(c, env, ws@),
            ) by {
                let w = wire_bytes(c, env, ws@);
                lemma_absorb_all(gadget_hash(), old(self).st(c, env), w);
                if ws@.len() > 0 {
                    assert(self.input@ == in0 + ws@);
                    tower::lemma_concat(c, env, in0, ws@);
                    bytes::lemma_bytes_concat(
                        netlist::bits(c, env, in0),
                        netlist::bits(c, env, ws@),
                    );
                    assert(self.st(c, env).output =~= Seq::<u8>::empty());
                    assert(w.len() == ws@.len() / 8);
                } else {
                    assert(w.len() == 0);
                }
            }
        }
    }

    /// Hash the input when nothing is left to draw.
    fn refill<T: CircuitTrait>(&mut self, b: &mut T)
        requires
            old(b).inv(),
            old(self).wf(old(b)@.next),
        ensures
            final(b).inv(),
            netlist::ext(old(b)@, final(b)@),
            final(self).wf(final(b)@.next),
            final(self).output@.len() > 0,
            forall|env: Env| #[trigger]
                final(self).st(final(b)@, env) == (if old(self).output@.len() == 0 {
                    let d = blake3::hash_bytes(old(self).st(old(b)@, env).input);
                    Buffers {
                        input: d,
                        output: d,
                        flushes: old(self).st(old(b)@, env).flushes + 1,
                    }
                } else {
                    old(self).st(old(b)@, env)
                }),
    {
        let ghost first = b@;
        let ghost in0 = self.input@;
        proof {
            netlist::lemma_ext_refl(first);
        }
        if self.output.len() == 0 {
            let digest = blake3::hash_wires(b, self.input.as_slice());
            self.flushed.push(());
            self.input = tower::copied(digest.as_slice());
            self.output = digest;
            proof {
                assert forall|env: Env| #[trigger]
                    self.st(b@, env) == ({
                        let d = blake3::hash_bytes(old(self).st(first, env).input);
                        Buffers {
                            input: d,
                            output: d,
                            flushes: old(self).st(first, env).flushes + 1,
                        }
                    }) by {
                    bytes::lemma_bits_of_bytes_of_bits(netlist::bits(first, env, in0));
                }
            }
        }
    }

    /// Draw one byte.
    pub(crate) fn sample<T: CircuitTrait>(&mut self, b: &mut T) -> (r: Vec<usize>)
        requires
            old(b).inv(),
            old(self).wf(old(b)@.next),
        ensures
            final(b).inv(),
            netlist::ext(old(b)@, final(b)@),
            final(self).wf(final(b)@.next),
            r@.len() == 8,
            netlist::below(r@, final(b)@.next),
            forall|env: Env| #[trigger]
                final(self).st(final(b)@, env) == protocol::buffers_draw(
                    gadget_hash(),
                    old(self).st(old(b)@, env),
                ).0,
            forall|env: Env| #[trigger]
                netlist::bits(final(b)@, env, r@) == bytes::bits_of_bytes(
                    seq![
                        protocol::buffers_draw(gadget_hash(), old(self).st(old(b)@, env)).1,
                    ],
                ),
    {
        let ghost first = b@;
        let ghost out0 = self.output@;
        self.refill(b);
        let ghost full = *self;
        let n = self.output.len();
        let (left, last) = self.output.as_slice().split_at(n - 8);
        let r = tower::copied(last);
        let rest = tower::copied(left);
        self.output = rest;
        proof {
            assert(full.output@.take(n - 8) == left@);
            assert(full.output@.skip(n - 8) == last@);
            assert forall|env: Env| #[trigger]
                self.st(b@, env) == protocol::buffers_draw(
                    gadget_hash(),
                    old(self).st(first, env),
                ).0 by {
                self.lemma_drawn(full, b@, env);
                assert(full.st(b@, env) == (if out0.len() == 0 {
                    let d = blake3::hash_bytes(old(self).st(first, env).input);
                    Buffers {
                        input: d,
                        output: d,
                        flushes: old(self).st(first, env).flushes + 1,
                    }
                } else {
                    old(self).st(first, env)
                }));
                assert((old(self).st(first, env).output.len() == 0) == (out0.len() == 0));
            }
            assert forall|env: Env| #[trigger]
                netlist::bits(b@, env, r@) == bytes::bits_of_bytes(
                    seq![protocol::buffers_draw(gadget_hash(), old(self).st(first, env)).1],
                ) by {
                self.lemma_drawn(full, b@, env);
                assert(full.st(b@, env) == (if out0.len() == 0 {
                    let d = blake3::hash_bytes(old(self).st(first, env).input);
                    Buffers {
                        input: d,
                        output: d,
                        flushes: old(self).st(first, env).flushes + 1,
                    }
                } else {
                    old(self).st(first, env)
                }));
                assert((old(self).st(first, env).output.len() == 0) == (out0.len() == 0));
                let x = netlist::bits(b@, env, r@);
                let all = netlist::bits(b@, env, full.output@);
                assert(x =~= all.skip(all.len() - 8));
                lemma_one_byte(x);
                bytes::lemma_bits_of_bytes_of_bits(x);
            }
        }
        r
    }

    /// Taking the last byte off the output.
    proof fn lemma_drawn(self, full: Sponge, c: Netlist, env: Env)
        requires
            full.output@.len() % 8 == 0,
            full.output@.len() > 0,
            self.input == full.input,
            self.flushed == full.flushed,
            self.output@ == full.output@.take(full.output@.len() - 8),
        ensures
            self.st(c, env).input == full.st(c, env).input,
            self.st(c, env).flushes == full.st(c, env).flushes,
            self.st(c, env).output == full.st(c, env).output.drop_last(),
            full.st(c, env).output.last() == bytes::byte_of(
                netlist::bits(c, env, full.output@).skip(full.output@.len() - 8),
            ),
    {
        let all = netlist::bits(c, env, full.output@);
        lemma_last_byte(all);
        assert(netlist::bits(c, env, self.output@) =~= all.take(all.len() - 8));
    }

    /// Draw `n` bytes.
    pub(crate) fn sample_bytes<T: CircuitTrait>(&mut self, b: &mut T, n: usize) -> (r: Vec<usize>)
        requires
            old(b).inv(),
            old(self).wf(old(b)@.next),
            8 * n <= usize::MAX,
        ensures
            final(b).inv(),
            netlist::ext(old(b)@, final(b)@),
            final(self).wf(final(b)@.next),
            r@.len() == 8 * n,
            netlist::below(r@, final(b)@.next),
            forall|env: Env| #[trigger]
                final(self).st(final(b)@, env) == protocol::draw_all(
                    gadget_machine(),
                    old(self).st(old(b)@, env),
                    n as nat,
                ).0,
            forall|env: Env| #[trigger]
                netlist::bits(final(b)@, env, r@) == bytes::bits_of_bytes(
                    protocol::draw_all(
                        gadget_machine(),
                        old(self).st(old(b)@, env),
                        n as nat,
                    ).1,
                ),
    {
        let ghost first = b@;
        let ghost s0 = *self;
        let mut r: Vec<usize> = Vec::new();
        let mut k: usize = 0;
        proof {
            netlist::lemma_ext_refl(first);
            assert forall|env: Env| #[trigger]
                netlist::bits(b@, env, r@) == bytes::bits_of_bytes(
                    protocol::draw_all(gadget_machine(), s0.st(first, env), 0).1,
                ) by {
                assert(netlist::bits(b@, env, r@) =~= bytes::bits_of_bytes(Seq::<u8>::empty()));
            }
        }
        while k < n
            invariant
                b.inv(),
                k <= n,
                8 * n <= usize::MAX,
                netlist::ext(first, b@),
                self.wf(b@.next),
                r@.len() == 8 * k,
                netlist::below(r@, b@.next),
                forall|env: Env| #[trigger]
                    self.st(b@, env) == protocol::draw_all(
                        gadget_machine(),
                        s0.st(first, env),
                        k as nat,
                    ).0,
                forall|env: Env| #[trigger]
                    netlist::bits(b@, env, r@) == bytes::bits_of_bytes(
                        protocol::draw_all(gadget_machine(), s0.st(first, env), k as nat).1,
                    ),
            decreases n - k,
        {
            let ghost c0 = b@;
            let ghost s1 = *self;
            let ghost r0 = r@;
            let byte = self.sample(b);
            let ghost bw = byte@;
            let mut byte = byte;
            r.append(&mut byte);
            proof {
                assert(r@ == r0 + bw);
                assert forall|env: Env| #[trigger]
                    self.st(b@, env) == protocol::draw_all(
                        gadget_machine(),
                        s0.st(first, env),
                        (k + 1) as nat,
                    ).0 by {
                    assert(s1.st(c0, env) == protocol::draw_all(
                        gadget_machine(),
                        s0.st(first, env),
                        k as nat,
                    ).0);
                }
                assert forall|env: Env| #[trigger]
                    netlist::bits(b@, env, r@) == bytes::bits_of_bytes(
                        protocol::draw_all(
                            gadget_machine(),
                            s0.st(first, env),
                            (k + 1) as nat,
                        ).1,
                    ) by {
                    let (sk, dk) = protocol::draw_all(
                        gadget_machine(),
                        s0.st(first, env),
                        k as nat,
                    );
                    assert(s1.st(c0, env) == sk);
                    let x = protocol::buffers_draw(gadget_hash(), sk).1;
                    tower::lemma_concat(b@, env, r0, bw);
                    assert(netlist::bits(b@, env, r0) == netlist::bits(c0, env, r0));
                    bytes::lemma_bits_concat(dk, seq![x]);
                    assert(dk.push(x) =~= dk + seq![x]);
                    assert(netlist::bits(b@, env, bw) == bytes::bits_of_bytes(seq![x]));
                }
            }
            k = k + 1;
        }
        r
    }

    pub(crate) fn observe_elem(&mut self, x: &Elem)
        requires
            x@.len() == 128,
        ensures
            forall|n: nat|
                old(self).wf(n) && netlist::below(x@, n) ==> #[trigger] final(self).wf(n),
            forall|c: Netlist, env: Env|
                old(self).wf(c.next) ==> #[trigger] final(self).st(c, env)
                    == protocol::absorb_elt(
                    gadget_machine(),
                    old(self).st(c, env),
                    netlist::bits(c, env, x@),
                ),
    {
        self.observe(x.as_slice());
    }

    pub(crate) fn observe_elems(&mut self, xs: &[Elem])
        requires
            forall|i: int| 0 <= i < xs@.len() ==> (#[trigger] xs@[i])@.len() == 128,
        ensures
            forall|n: nat| old(self).wf(n) && elems_ok(xs@, n) ==> #[trigger] final(self).wf(n),
            forall|c: Netlist, env: Env|
                old(self).wf(c.next) && elems_ok(xs@, c.next) ==> #[trigger] final(self).st(c, env)
                    == protocol::absorb_elts(
                    gadget_machine(),
                    old(self).st(c, env),
                    netlist::words(c, env, xs@),
                ),
    {
        let ghost s0 = *self;
        let mut k: usize = 0;
        proof {
            assert forall|c: Netlist, env: Env| #[trigger] self.st(c, env)
                == protocol::absorb_elts(
                gadget_machine(),
                s0.st(c, env),
                netlist::words(c, env, xs@).take(0),
            ) by {}
        }
        while k < xs.len()
            invariant
                k <= xs@.len(),
                forall|i: int| 0 <= i < xs@.len() ==> (#[trigger] xs@[i])@.len() == 128,
                forall|n: nat| s0.wf(n) && elems_ok(xs@, n) ==> #[trigger] self.wf(n),
                forall|c: Netlist, env: Env|
                    s0.wf(c.next) && elems_ok(xs@, c.next) ==> #[trigger] self.st(c, env)
                        == protocol::absorb_elts(
                        gadget_machine(),
                        s0.st(c, env),
                        netlist::words(c, env, xs@).take(k as int),
                    ),
            decreases xs@.len() - k,
        {
            let ghost s1 = *self;
            self.observe_elem(&xs[k]);
            proof {
                assert forall|n: nat| s0.wf(n) && elems_ok(xs@, n) implies #[trigger] self.wf(
                    n,
                ) by {
                    assert(s1.wf(n));
                    assert(netlist::below(xs@[k as int]@, n));
                }
                assert forall|c: Netlist, env: Env|
                    s0.wf(c.next) && elems_ok(xs@, c.next) implies #[trigger] self.st(c, env)
                    == protocol::absorb_elts(
                    gadget_machine(),
                    s0.st(c, env),
                    netlist::words(c, env, xs@).take(k + 1),
                ) by {
                    let ws = netlist::words(c, env, xs@);
                    assert(ws.take(k + 1).drop_last() =~= ws.take(k as int));
                    assert(s1.wf(c.next));
                    assert(s1.st(c, env) == protocol::absorb_elts(
                        gadget_machine(),
                        s0.st(c, env),
                        ws.take(k as int),
                    ));
                }
            }
            k = k + 1;
        }
        proof {
            assert forall|c: Netlist, env: Env|
                s0.wf(c.next) && elems_ok(xs@, c.next) implies #[trigger] self.st(c, env)
                == protocol::absorb_elts(
                gadget_machine(),
                s0.st(c, env),
                netlist::words(c, env, xs@),
            ) by {
                let ws = netlist::words(c, env, xs@);
                assert(ws.take(xs@.len() as int) =~= ws);
            }
        }
    }

    pub(crate) fn sample_elem<T: CircuitTrait>(&mut self, b: &mut T) -> (r: Elem)
        requires
            old(b).inv(),
            old(self).wf(old(b)@.next),
        ensures
            final(b).inv(),
            netlist::ext(old(b)@, final(b)@),
            final(self).wf(final(b)@.next),
            elem_ok(r@, final(b)@.next),
            forall|env: Env| #[trigger]
                final(self).st(final(b)@, env) == protocol::draw_elt(
                    gadget_machine(),
                    old(self).st(old(b)@, env),
                ).0,
            forall|env: Env| #[trigger]
                netlist::bits(final(b)@, env, r@) == protocol::draw_elt(
                    gadget_machine(),
                    old(self).st(old(b)@, env),
                ).1,
    {
        self.sample_bytes(b, 16)
    }

    /// Absorb constant bytes.
    pub(crate) fn observe_const<T: CircuitTrait>(&mut self, b: &mut T, bytes: &[u8])
        requires
            old(b).inv(),
            old(self).wf(old(b)@.next),
        ensures
            final(b).inv(),
            final(b)@ == old(b)@,
            final(self).wf(final(b)@.next),
            forall|env: Env| #[trigger]
                final(self).st(final(b)@, env) == protocol::absorb_all(
                    gadget_machine(),
                    old(self).st(old(b)@, env),
                    bytes@,
                ),
    {
        let ghost s0 = *self;
        let ws = wires::const_bytes(b, bytes);
        self.observe(ws.as_slice());
        proof {
            assert forall|env: Env| #[trigger]
                self.st(b@, env) == protocol::absorb_all(
                    gadget_machine(),
                    s0.st(b@, env),
                    bytes@,
                ) by {
                assert(netlist::bits(b@, env, ws@) == bytes::bits_of_bytes(bytes@));
                bytes::lemma_bytes_of_bits_of_bytes(bytes@);
            }
        }
    }

    /// Draw `n` elements.
    pub(crate) fn sample_elems<T: CircuitTrait>(&mut self, b: &mut T, n: usize) -> (r: Vec<Elem>)
        requires
            old(b).inv(),
            old(self).wf(old(b)@.next),
        ensures
            final(b).inv(),
            netlist::ext(old(b)@, final(b)@),
            final(self).wf(final(b)@.next),
            r@.len() == n,
            elems_ok(r@, final(b)@.next),
            forall|env: Env| #[trigger]
                final(self).st(final(b)@, env) == protocol::draw_elts(
                    gadget_machine(),
                    old(self).st(old(b)@, env),
                    n as nat,
                ).0,
            forall|env: Env| #[trigger]
                netlist::words(final(b)@, env, r@) == protocol::draw_elts(
                    gadget_machine(),
                    old(self).st(old(b)@, env),
                    n as nat,
                ).1,
    {
        let ghost first = b@;
        let ghost s0 = *self;
        let mut r: Vec<Elem> = Vec::new();
        proof {
            netlist::lemma_ext_refl(first);
            assert forall|env: Env| #[trigger] netlist::words(b@, env, r@) == protocol::draw_elts(
                gadget_machine(),
                s0.st(first, env),
                0,
            ).1 by {
                assert(netlist::words(b@, env, r@) =~= Seq::<field::Elt>::empty());
            }
        }
        while r.len() < n
            invariant
                b.inv(),
                netlist::ext(first, b@),
                self.wf(b@.next),
                r@.len() <= n,
                elems_ok(r@, b@.next),
                forall|env: Env| #[trigger]
                    self.st(b@, env) == protocol::draw_elts(
                        gadget_machine(),
                        s0.st(first, env),
                        r@.len(),
                    ).0,
                forall|env: Env| #[trigger]
                    netlist::words(b@, env, r@) == protocol::draw_elts(
                        gadget_machine(),
                        s0.st(first, env),
                        r@.len(),
                    ).1,
            decreases n - r@.len(),
        {
            let ghost c0 = b@;
            let ghost s1 = *self;
            let ghost r0 = r@;
            let x = self.sample_elem(b);
            let ghost xw = x@;
            r.push(x);
            proof {
                assert forall|env: Env| #[trigger]
                    self.st(b@, env) == protocol::draw_elts(
                        gadget_machine(),
                        s0.st(first, env),
                        r@.len(),
                    ).0 by {
                    assert(s1.st(c0, env) == protocol::draw_elts(
                        gadget_machine(),
                        s0.st(first, env),
                        r0.len(),
                    ).0);
                }
                assert forall|env: Env| #[trigger]
                    netlist::words(b@, env, r@) == protocol::draw_elts(
                        gadget_machine(),
                        s0.st(first, env),
                        r@.len(),
                    ).1 by {
                    let (sk, dk) = protocol::draw_elts(
                        gadget_machine(),
                        s0.st(first, env),
                        r0.len(),
                    );
                    assert(s1.st(c0, env) == sk);
                    assert(netlist::words(b@, env, r0) == netlist::words(c0, env, r0));
                    assert(netlist::words(b@, env, r@) =~= dk.push(netlist::bits(b@, env, xw)));
                }
            }
        }
        r
    }

    /// The low `n` bits of an 8-byte draw, as wires.
    pub(crate) fn sample_bits<T: CircuitTrait>(&mut self, b: &mut T, n: usize) -> (r: Vec<usize>)
        requires
            old(b).inv(),
            old(self).wf(old(b)@.next),
            n <= 64,
        ensures
            final(b).inv(),
            netlist::ext(old(b)@, final(b)@),
            final(self).wf(final(b)@.next),
            r@.len() == n,
            netlist::below(r@, final(b)@.next),
            forall|env: Env| #[trigger]
                final(self).st(final(b)@, env) == protocol::draw_low(
                    gadget_machine(),
                    old(self).st(old(b)@, env),
                    n as nat,
                ).0,
            forall|env: Env| #[trigger]
                netlist::bits(final(b)@, env, r@) == protocol::draw_low(
                    gadget_machine(),
                    old(self).st(old(b)@, env),
                    n as nat,
                ).1,
    {
        let ghost first = b@;
        let all = self.sample_bytes(b, 8);
        let (low, high) = all.as_slice().split_at(n);
        let r = tower::copied(low);
        proof {
            assert forall|env: Env| #[trigger]
                netlist::bits(b@, env, r@) == protocol::draw_low(
                    gadget_machine(),
                    old(self).st(first, env),
                    n as nat,
                ).1 by {
                assert(netlist::bits(b@, env, r@) =~= netlist::bits(b@, env, all@).take(
                    n as int,
                ));
            }
        }
        r
    }

    /// Absorb the witness; 1 iff `n` sampled bits are zero.
    pub(crate) fn check_witness<T: CircuitTrait>(
        &mut self,
        b: &mut T,
        n: usize,
        witness: &Elem,
    ) -> (w: usize)
        requires
            old(b).inv(),
            old(self).wf(old(b)@.next),
            0 < n <= 64,
            elem_ok(witness@, old(b)@.next),
        ensures
            final(b).inv(),
            netlist::ext(old(b)@, final(b)@),
            final(self).wf(final(b)@.next),
            w < final(b)@.next,
            forall|env: Env| #[trigger]
                final(self).st(final(b)@, env) == protocol::check_witness(
                    gadget_machine(),
                    old(self).st(old(b)@, env),
                    n as nat,
                    netlist::bits(old(b)@, env, witness@),
                ).0,
            forall|env: Env| #[trigger]
                netlist::value(final(b)@, env, w as int) == protocol::check_witness(
                    gadget_machine(),
                    old(self).st(old(b)@, env),
                    n as nat,
                    netlist::bits(old(b)@, env, witness@),
                ).1,
    {
        let ghost first = b@;
        let ghost s0 = *self;
        self.observe_elem(witness);
        let ghost s1 = *self;
        assert(s1.wf(first.next));
        let drawn = self.sample_bits(b, n);
        let ghost c1 = b@;
        let some = wires::or_all(b, drawn.as_slice());
        let ghost c2 = b@;
        let w = wires::not(b, some);
        proof {
            assert(self.wf(b@.next));
            assert forall|env: Env| #[trigger]
                self.st(b@, env) == protocol::check_witness(
                    gadget_machine(),
                    s0.st(first, env),
                    n as nat,
                    netlist::bits(first, env, witness@),
                ).0 by {
                assert(s1.st(first, env) == protocol::absorb_elt(
                    gadget_machine(),
                    s0.st(first, env),
                    netlist::bits(first, env, witness@),
                ));
                lemma_sponge_ext(*self, c1, b@, env);
                assert(self.st(c1, env) == protocol::draw_low(
                    gadget_machine(),
                    s1.st(first, env),
                    n as nat,
                ).0);
            }
            assert forall|env: Env| #[trigger]
                netlist::value(b@, env, w as int) == protocol::check_witness(
                    gadget_machine(),
                    s0.st(first, env),
                    n as nat,
                    netlist::bits(first, env, witness@),
                ).1 by {
                assert(s1.st(first, env) == protocol::absorb_elt(
                    gadget_machine(),
                    s0.st(first, env),
                    netlist::bits(first, env, witness@),
                ));
                let d = netlist::bits(c1, env, drawn@);
                assert(d == protocol::draw_low(
                    gadget_machine(),
                    s1.st(first, env),
                    n as nat,
                ).1);
                bytes::lemma_nat_of_zero(d);
                assert(netlist::value(c2, env, some as int) == wires::any(d));
                if wires::any(d) {
                    let i = choose|i: int| 0 <= i < d.len() && #[trigger] d[i];
                    assert(d[i]);
                }
            }
        }
        w
    }
}

} // verus!

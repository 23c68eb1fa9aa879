//! The Merkle openings on wires: every opened row hashed, and walked to the
//! root that was absorbed.
use super::blake3;
use super::bytes;
use super::field::Elt;
use super::gates::CircuitTrait;
use super::netlist;
use super::netlist::{Env, Netlist};
use super::profile;
use super::profile::{Phase, Profile};
use super::protocol;
use super::reference;
use super::wire_arith;
use super::wire_inputs;
use super::wire_inputs::OpeningInputs;
use super::wire_sponge;
use super::wire_sponge::{gadget_hash, wire_bytes};
use super::wire_transcript;
use super::wire_transcript::{hold, positions};
use super::wires;
use super::wires::{elem_ok, elems_ok, Elem};
use crate::merkle;
use vstd::arithmetic::power2::pow2;
use vstd::prelude::*;

verus! {

broadcast use {netlist::group_netlist, profile::lemma_profile_ext};

/// One layer of a mux tree: of each pair, the second where `bit` is set.
fn select_layer<T: CircuitTrait>(b: &mut T, layer: &Vec<Vec<usize>>, bit: usize, len: usize) -> (
    next: Vec<Vec<usize>>)
    requires
        old(b).inv(),
        bit < old(b)@.next,
        netlist::all_below(layer@, len as nat, old(b)@.next),
    ensures
        final(b).inv(),
        netlist::ext(old(b)@, final(b)@),
        next@.len() == layer@.len() / 2,
        netlist::all_below(next@, len as nat, final(b)@.next),
        forall|env: Env, j: int|
            0 <= j < next@.len() ==> #[trigger] netlist::bits(final(b)@, env, next@[j]@)
                == netlist::bits(
                old(b)@,
                env,
                layer@[2 * j + if netlist::value(old(b)@, env, bit as int) {
                    1int
                } else {
                    0
                }]@,
            ),
{
    let ghost first = b@;
    let mut next: Vec<Vec<usize>> = Vec::new();
    let n = layer.len();
    let half = n / 2;
    proof {
        netlist::lemma_ext_refl(first);
    }
    while next.len() < half
        invariant
            b.inv(),
            netlist::ext(first, b@),
            bit < first.next,
            netlist::all_below(layer@, len as nat, first.next),
            n == layer@.len(),
            half == n / 2,
            next@.len() <= half,
            netlist::all_below(next@, len as nat, b@.next),
            forall|env: Env, j: int|
                0 <= j < next@.len() ==> #[trigger] netlist::bits(b@, env, next@[j]@)
                    == netlist::bits(
                    first,
                    env,
                    layer@[2 * j + if netlist::value(first, env, bit as int) {
                        1int
                    } else {
                        0
                    }]@,
                ),
        decreases half - next@.len(),
    {
        let k = next.len();
        let ghost c0 = b@;
        let ghost next0 = next@;
        assert(netlist::below(layer@[2 * k as int]@, first.next));
        assert(netlist::below(layer@[2 * k + 1]@, first.next));
        let x = wires::mux(b, bit, layer[2 * k].as_slice(), layer[2 * k + 1].as_slice());
        next.push(x);
        proof {
            assert forall|env: Env, j: int|
                0 <= j < next@.len() implies #[trigger] netlist::bits(b@, env, next@[j]@)
                == netlist::bits(
                first,
                env,
                layer@[2 * j + if netlist::value(first, env, bit as int) {
                    1int
                } else {
                    0
                }]@,
            ) by {
                if j < k {
                    assert(next@[j] == next0[j]);
                    assert(netlist::below(next0[j]@, c0.next));
                    assert(netlist::bits(c0, env, next0[j]@) == netlist::bits(b@, env, next0[j]@));
                }
            }
        }
    }
    next
}

/// `entries[sel]`, for `sel` given as bits, least significant first: a mux
/// tree, one AND per wire per pair merged.
fn select<T: CircuitTrait>(b: &mut T, entries: &Vec<Vec<usize>>, sel: &[usize], len: usize) -> (r:
    Vec<usize>)
    requires
        old(b).inv(),
        netlist::below(sel@, old(b)@.next),
        entries@.len() == pow2(sel@.len()),
        netlist::all_below(entries@, len as nat, old(b)@.next),
    ensures
        final(b).inv(),
        netlist::ext(old(b)@, final(b)@),
        r@.len() == len,
        netlist::below(r@, final(b)@.next),
        forall|env: Env| #[trigger]
            netlist::bits(final(b)@, env, r@) == netlist::bits(
                old(b)@,
                env,
                entries@[bytes::nat_of(netlist::bits(old(b)@, env, sel@)) as int]@,
            ),
{
    let ghost first = b@;
    let ghost n = sel@.len();
    let mut layer = wires::copy_elems(entries.as_slice());
    let mut k: usize = 0;
    proof {
        netlist::lemma_ext_refl(first);
        vstd::arithmetic::power2::lemma2_to64();
        assert forall|env: Env, j: int|
            0 <= j < layer@.len() implies #[trigger] netlist::bits(b@, env, layer@[j]@)
            == netlist::bits(first, env, entries@[j]@) by {
            assert(layer@[j]@ == entries@[j]@);
        }
        assert forall|env: Env| true implies bytes::nat_of(
            #[trigger] netlist::bits(first, env, sel@).take(0),
        ) == 0 by {
            assert(netlist::bits(first, env, sel@).take(0) =~= Seq::<bool>::empty());
        }
        assert forall|env: Env, j: int|
            0 <= j < layer@.len() implies #[trigger] netlist::bits(b@, env, layer@[j]@)
            == netlist::bits(
            first,
            env,
            entries@[j * pow2(0) + bytes::nat_of(netlist::bits(first, env, sel@).take(0))]@,
        ) by {
            assert(j * pow2(0) == j) by (nonlinear_arith)
                requires
                    pow2(0) == 1,
            ;
            assert(bytes::nat_of(netlist::bits(first, env, sel@).take(0)) == 0);
        }
    }
    while k < sel.len()
        invariant
            b.inv(),
            netlist::ext(first, b@),
            n == sel@.len(),
            k <= n,
            netlist::below(sel@, first.next),
            layer@.len() == pow2((n - k) as nat),
            entries@.len() == pow2(n),
            netlist::all_below(entries@, len as nat, first.next),
            netlist::all_below(layer@, len as nat, b@.next),
            forall|env: Env, j: int|
                0 <= j < layer@.len() ==> #[trigger] netlist::bits(b@, env, layer@[j]@)
                    == netlist::bits(
                    first,
                    env,
                    entries@[j * pow2(k as nat) + bytes::nat_of(
                        netlist::bits(first, env, sel@).take(k as int),
                    )]@,
                ),
        decreases n - k,
    {
        let ghost c0 = b@;
        let ghost layer0 = layer@;
        let next = select_layer(b, &layer, sel[k], len);
        layer = next;
        proof {
            vstd::arithmetic::power2::lemma_pow2_unfold((n - k) as nat);
            vstd::arithmetic::power2::lemma_pow2_unfold((k + 1) as nat);
            assert forall|env: Env, j: int|
                0 <= j < layer@.len() implies #[trigger] netlist::bits(b@, env, layer@[j]@)
                == netlist::bits(
                first,
                env,
                entries@[j * pow2((k + 1) as nat) + bytes::nat_of(
                    netlist::bits(first, env, sel@).take(k + 1),
                )]@,
            ) by {
                let bit = netlist::value(first, env, sel@[k as int] as int);
                assert(netlist::value(c0, env, sel@[k as int] as int) == bit);
                let j0 = 2 * j + if bit {
                    1int
                } else {
                    0
                };
                assert(netlist::bits(b@, env, layer@[j]@) == netlist::bits(
                    c0,
                    env,
                    layer0[j0]@,
                ));
                let s = netlist::bits(first, env, sel@);
                assert(s.take(k + 1).drop_last() =~= s.take(k as int));
                assert(s.take(k + 1).last() == bit);
                let p = pow2(k as nat);
                assert(j0 * p == j * (2 * p) + (j0 - 2 * j) * p) by (nonlinear_arith);
                assert(1 * p == p && 0 * p == 0) by (nonlinear_arith);
            }
        }
        k = k + 1;
    }
    proof {
        vstd::arithmetic::power2::lemma2_to64();
        assert(layer@.len() == 1);
        assert forall|env: Env| #[trigger]
            netlist::bits(b@, env, layer@[0]@) == netlist::bits(
                first,
                env,
                entries@[bytes::nat_of(netlist::bits(first, env, sel@)) as int]@,
            ) by {
            let s = netlist::bits(first, env, sel@);
            assert(s.take(n as int) =~= s);
            assert(0 * pow2(n) == 0) by (nonlinear_arith);
        }
    }
    let r = layer.pop();
    r.unwrap()
}

/// Climbing from an index drops its low bits.
pub proof fn lemma_ancestor_bits(s: Seq<bool>, level: nat)
    requires
        level <= s.len(),
    ensures
        merkle::ancestor(bytes::nat_of(s) as int, level) == bytes::nat_of(s.skip(level as int)),
        level < s.len() ==> (merkle::ancestor(bytes::nat_of(s) as int, level) % 2 == 1)
            == s[level as int],
    decreases level,
{
    if level == 0 {
        assert(s.skip(0) =~= s);
    } else {
        lemma_ancestor_bits(s, (level - 1) as nat);
        bytes::lemma_nat_of_first(s.skip(level - 1));
        assert(s.skip(level - 1).skip(1) =~= s.skip(level as int));
    }
    if level < s.len() {
        bytes::lemma_nat_of_first(s.skip(level as int));
    }
}

/// Whole bytes of a wire vector.
pub proof fn lemma_bytes_subrange(x: Seq<bool>, i: int, j: int)
    requires
        0 <= i <= j,
        8 * j <= x.len(),
        x.len() % 8 == 0,
    ensures
        bytes::bytes_of_bits(x).subrange(i, j) == bytes::bytes_of_bits(x.subrange(8 * i, 8 * j)),
{
    let a = bytes::bytes_of_bits(x).subrange(i, j);
    let b = bytes::bytes_of_bits(x.subrange(8 * i, 8 * j));
    assert forall|k: int| 0 <= k < a.len() implies a[k] == b[k] by {
        assert(x.subrange(8 * i, 8 * j).subrange(8 * k, 8 * k + 8) =~= x.subrange(
            8 * (i + k),
            8 * (i + k) + 8,
        ));
    }
    assert(a =~= b);
}

/// The wires of a row, in order.
fn row_wires(row: &Vec<Elem>) -> (r: Vec<usize>)
    requires
        forall|i: int| 0 <= i < row@.len() ==> (#[trigger] row@[i])@.len() == 128,
    ensures
        r@.len() % 8 == 0,
        forall|n: nat| elems_ok(row@, n) ==> #[trigger] netlist::below(r@, n),
        forall|c: Netlist, env: Env| #[trigger]
            wire_bytes(c, env, r@) == protocol::row_bytes(netlist::words(c, env, row@)),
{
    let mut r: Vec<usize> = Vec::new();
    let mut k: usize = 0;
    proof {
        assert forall|c: Netlist, env: Env| #[trigger]
            wire_bytes(c, env, r@) == protocol::row_bytes(
                netlist::words(c, env, row@).take(0),
            ) by {
            assert(netlist::words(c, env, row@).take(0) =~= Seq::<Elt>::empty());
            assert(netlist::bits(c, env, r@) =~= Seq::<bool>::empty());
            assert(wire_bytes(c, env, r@) =~= Seq::<u8>::empty());
        }
    }
    while k < row.len()
        invariant
            k <= row@.len(),
            forall|i: int| 0 <= i < row@.len() ==> (#[trigger] row@[i])@.len() == 128,
            r@.len() % 8 == 0,
            forall|n: nat| elems_ok(row@, n) ==> #[trigger] netlist::below(r@, n),
            forall|c: Netlist, env: Env| #[trigger]
                wire_bytes(c, env, r@) == protocol::row_bytes(
                    netlist::words(c, env, row@).take(k as int),
                ),
        decreases row@.len() - k,
    {
        let ghost r0 = r@;
        let mut w = wires::copy_elem(&row[k]);
        let ghost x = w@;
        r.append(&mut w);
        proof {
            assert(x.len() == 128);
            assert forall|n: nat| elems_ok(row@, n) implies #[trigger] netlist::below(r@, n) by {
                assert(netlist::below(r0, n));
                assert(elem_ok(row@[k as int]@, n));
            }
            assert forall|c: Netlist, env: Env| #[trigger]
                wire_bytes(c, env, r@) == protocol::row_bytes(
                    netlist::words(c, env, row@).take(k + 1),
                ) by {
                let all = netlist::words(c, env, row@);
                assert(all.take(k + 1).drop_last() =~= all.take(k as int));
                assert(all.take(k + 1).last() == netlist::bits(c, env, x));
                assert(netlist::bits(c, env, r@) =~= netlist::bits(c, env, r0) + netlist::bits(
                    c,
                    env,
                    x,
                ));
                bytes::lemma_bytes_concat(
                    netlist::bits(c, env, r0),
                    netlist::bits(c, env, x),
                );
                assert(wire_bytes(c, env, r0) == protocol::row_bytes(all.take(k as int)));
            }
        }
        k = k + 1;
    }
    proof {
        assert forall|c: Netlist, env: Env| #[trigger]
            wire_bytes(c, env, r@) == protocol::row_bytes(netlist::words(c, env, row@)) by {
            let all = netlist::words(c, env, row@);
            assert(all.take(k as int) =~= all);
        }
    }
    r
}

/// The hash of some bytes on wires.
fn hash_wires<T: CircuitTrait>(b: &mut T, msg: &[usize]) -> (r: Vec<usize>)
    requires
        old(b).inv(),
        netlist::below(msg@, old(b)@.next),
        msg@.len() % 8 == 0,
    ensures
        final(b).inv(),
        netlist::ext(old(b)@, final(b)@),
        r@.len() == 256,
        netlist::below(r@, final(b)@.next),
        forall|env: Env| #[trigger]
            wire_bytes(final(b)@, env, r@) == gadget_hash()(wire_bytes(old(b)@, env, msg@)),
{
    let ghost first = b@;
    let r = blake3::hash_wires(b, msg);
    proof {
        assert forall|env: Env| #[trigger]
            wire_bytes(b@, env, r@) == gadget_hash()(wire_bytes(first, env, msg@)) by {
            assert(netlist::bits(b@, env, r@) == blake3::hash_bits(
                netlist::bits(first, env, msg@),
            ));
            bytes::lemma_bits_of_bytes_of_bits(netlist::bits(first, env, msg@));
        }
    }
    r
}

/// The node above a leaf: the running node is the right child where the index
/// bit is set.
fn climb<T: CircuitTrait>(
    b: &mut T,
    leaf: Vec<usize>,
    bits: &[usize],
    siblings: &Vec<Vec<usize>>,
) -> (node: Vec<usize>)
    requires
        old(b).inv(),
        leaf@.len() == 256,
        netlist::below(leaf@, old(b)@.next),
        netlist::below(bits@, old(b)@.next),
        siblings@.len() <= bits@.len(),
        netlist::all_below(siblings@, 256, old(b)@.next),
    ensures
        final(b).inv(),
        netlist::ext(old(b)@, final(b)@),
        node@.len() == 256,
        netlist::below(node@, final(b)@.next),
        forall|env: Env| #[trigger]
            wire_bytes(final(b)@, env, node@) == protocol::climb(
                gadget_hash(),
                bytes::nat_of(netlist::bits(old(b)@, env, bits@)),
                wire_bytes(old(b)@, env, leaf@),
                path_bytes(old(b)@, env, siblings@),
                siblings@.len(),
            ),
{
    let ghost first = b@;
    let ghost leaf0 = leaf@;
    let ghost h = gadget_hash();
    let mut node = leaf;
    let mut level: usize = 0;
    proof {
        netlist::lemma_ext_refl(first);
    }
    while level < siblings.len()
        invariant
            b.inv(),
            h == gadget_hash(),
            netlist::ext(first, b@),
            node@.len() == 256,
            netlist::below(node@, b@.next),
            netlist::below(leaf0, first.next),
            netlist::below(bits@, first.next),
            level <= siblings@.len() <= bits@.len(),
            netlist::all_below(siblings@, 256, first.next),
            forall|env: Env| #[trigger]
                wire_bytes(b@, env, node@) == protocol::climb(
                    h,
                    bytes::nat_of(netlist::bits(first, env, bits@)),
                    wire_bytes(first, env, leaf0),
                    path_bytes(first, env, siblings@),
                    level as nat,
                ),
        decreases siblings@.len() - level,
    {
        let ghost c0 = b@;
        let ghost node0 = node@;
        let ghost sib = siblings@[level as int]@;
        assert(sib.len() == 256 && netlist::below(sib, first.next));
        let bit = bits[level];
        let left = wires::mux(b, bit, node.as_slice(), siblings[level].as_slice());
        let ghost c1 = b@;
        let right = wires::mux(b, bit, siblings[level].as_slice(), node.as_slice());
        let ghost c2 = b@;
        let mut pair = left;
        let ghost lw = pair@;
        let mut high = right;
        let ghost rw = high@;
        pair.append(&mut high);
        let ghost pw = pair@;
        assert(pw == lw + rw);
        assert(netlist::below(pw, c2.next));
        node = hash_wires(b, pair.as_slice());
        proof {
            assert forall|env: Env| #[trigger]
                wire_bytes(b@, env, node@) == protocol::climb(
                    h,
                    bytes::nat_of(netlist::bits(first, env, bits@)),
                    wire_bytes(first, env, leaf0),
                    path_bytes(first, env, siblings@),
                    (level + 1) as nat,
                ) by {
                let s = netlist::bits(first, env, bits@);
                let v = netlist::value(first, env, bit as int);
                lemma_ancestor_bits(s, level as nat);
                assert(s[level as int] == v);
                assert(netlist::value(c0, env, bit as int) == v);
                assert(netlist::value(c1, env, bit as int) == v);
                let nb = netlist::bits(c0, env, node0);
                let sb = netlist::bits(first, env, sib);
                assert(netlist::bits(c0, env, sib) == sb);
                assert(netlist::bits(c1, env, sib) == sb);
                assert(netlist::bits(c1, env, node0) == nb);
                assert(netlist::bits(c1, env, lw) == (if v {
                    sb
                } else {
                    nb
                }));
                assert(netlist::bits(c2, env, lw) == netlist::bits(c1, env, lw));
                assert(netlist::bits(c2, env, rw) == (if v {
                    nb
                } else {
                    sb
                }));
                assert(netlist::bits(c2, env, pw) =~= netlist::bits(c2, env, lw) + netlist::bits(
                    c2,
                    env,
                    rw,
                ));
                bytes::lemma_bytes_concat(
                    netlist::bits(c2, env, lw),
                    netlist::bits(c2, env, rw),
                );
                assert(wire_bytes(c0, env, node0) == protocol::climb(
                    h,
                    bytes::nat_of(s),
                    wire_bytes(first, env, leaf0),
                    path_bytes(first, env, siblings@),
                    level as nat,
                ));
                assert(path_bytes(first, env, siblings@)[level as int] == bytes::bytes_of_bits(sb));
            }
        }
        level = level + 1;
    }
    node
}

/// The digests of a path on wires.
pub open spec fn path_bytes(c: Netlist, env: Env, siblings: Seq<Vec<usize>>) -> Seq<Seq<u8>> {
    Seq::new(siblings.len(), |l: int| wire_bytes(c, env, siblings[l]@))
}

/// The roots of a cap.
fn cap_roots(cap: &Vec<usize>) -> (roots: Vec<Vec<usize>>)
    requires
        cap@.len() % 256 == 0,
    ensures
        roots@.len() == cap@.len() / 256,
        forall|n: nat|
            netlist::below(cap@, n) ==> #[trigger] netlist::all_below(roots@, 256, n),
        forall|k: int|
            0 <= k < roots@.len() ==> (#[trigger] roots@[k])@ == cap@.subrange(
                256 * k,
                256 * k + 256,
            ),
{
    let total = cap.len();
    let n = total / 256;
    let mut roots: Vec<Vec<usize>> = Vec::new();
    while roots.len() < n
        invariant
            total == cap@.len(),
            n == total / 256,
            cap@.len() % 256 == 0,
            roots@.len() <= n,
            forall|k: int|
                0 <= k < roots@.len() ==> (#[trigger] roots@[k])@ == cap@.subrange(
                    256 * k,
                    256 * k + 256,
                ),
        decreases n - roots@.len(),
    {
        let k = roots.len();
        let mut root: Vec<usize> = Vec::new();
        let ghost want = cap@.subrange(256 * k as int, 256 * k + 256);
        while root.len() < 256
            invariant
                total == cap@.len(),
                n == total / 256,
                cap@.len() % 256 == 0,
                k < n,
                want == cap@.subrange(256 * k as int, 256 * k + 256),
                root@.len() <= 256,
                root@ == want.take(root@.len() as int),
            decreases 256 - root@.len(),
        {
            let i = root.len();
            root.push(cap[256 * k + i]);
            assert(want.take(i + 1) =~= want.take(i as int).push(want[i as int]));
        }
        assert(want.take(256) =~= want);
        roots.push(root);
    }
    proof {
        assert forall|m: nat| netlist::below(cap@, m) implies #[trigger] netlist::all_below(
            roots@,
            256,
            m,
        ) by {
            assert forall|i: int| 0 <= i < roots@.len() implies (#[trigger] roots@[i])@.len()
                == 256 && netlist::below(roots@[i]@, m) by {
                let r = roots@[i]@;
                assert forall|j: int| 0 <= j < r.len() implies (#[trigger] r[j]) < m by {
                    assert(r[j] == cap@[256 * i + j]);
                }
            }
        }
    }
    roots
}

/// One query: the row's leaf walked to its root. 1 iff the path reaches it.
#[verifier::rlimit(30)]
fn query_check<T: CircuitTrait>(
    b: &mut T,
    row: &Vec<Elem>,
    siblings: &Vec<Vec<usize>>,
    bits: &Vec<usize>,
    roots: &Vec<Vec<usize>>,
    height: usize,
    profile: &mut Profile,
    Ghost(cap): Ghost<Seq<usize>>,
) -> (check: usize)
    requires
        old(b).inv(),
        old(profile).wf(old(b)@),
        elems_ok(row@, old(b)@.next),
        netlist::below(bits@, old(b)@.next),
        siblings@.len() + height == bits@.len(),
        netlist::all_below(siblings@, 256, old(b)@.next),
        roots@.len() == pow2(height as nat),
        cap.len() == 256 * roots@.len(),
        netlist::below(cap, old(b)@.next),
        netlist::all_below(roots@, 256, old(b)@.next),
        forall|k: int|
            0 <= k < roots@.len() ==> (#[trigger] roots@[k])@ == cap.subrange(
                256 * k,
                256 * k + 256,
            ),
    ensures
        final(b).inv(),
        netlist::ext(old(b)@, final(b)@),
        final(profile).wf(final(b)@),
        check < final(b)@.next,
        forall|env: Env| #[trigger]
            netlist::value(final(b)@, env, check as int) == reaches(
                netlist::words(old(b)@, env, row@),
                path_bytes(old(b)@, env, siblings@),
                wire_bytes(old(b)@, env, cap),
                bytes::nat_of(netlist::bits(old(b)@, env, bits@)),
            ),
{
    let ghost b0 = b@;
    let ghost h = gadget_hash();
    proof {
        netlist::lemma_ext_refl(b0);
        assert forall|i: int| 0 <= i < row@.len() implies (#[trigger] row@[i])@.len() == 128 by {
            assert(elem_ok(row@[i]@, b0.next));
        }
    }
    let msg = row_wires(row);
    let leaf = hash_wires(b, msg.as_slice());
    let ghost leafw = leaf@;
    let ghost b1 = b@;
    profile.mark(b, Phase::LeafHashes);
    let node = climb(b, leaf, bits.as_slice(), siblings);
    let ghost b2 = b@;
    profile.mark(b, Phase::MerklePaths);
    let (low, high) = bits.as_slice().split_at(siblings.len());
    let ghost hw = high@;
    assert(hw == bits@.skip(siblings@.len() as int));
    let root = select(b, roots, high, 256);
    let ghost b3 = b@;
    let check = wires::equal(b, node.as_slice(), root.as_slice());
    profile.mark(b, Phase::CapSelection);
    proof {
        assert forall|env: Env| #[trigger]
            netlist::value(b@, env, check as int) == reaches(
                netlist::words(b0, env, row@),
                path_bytes(b0, env, siblings@),
                wire_bytes(b0, env, cap),
                bytes::nat_of(netlist::bits(b0, env, bits@)),
            ) by {
            let s = netlist::bits(b0, env, bits@);
            let depth = siblings@.len();
            assert(wire_bytes(b0, env, msg@) == protocol::row_bytes(
                netlist::words(b0, env, row@),
            ));
            assert(wire_bytes(b1, env, leafw) == h(wire_bytes(b0, env, msg@)));
            assert(netlist::bits(b1, env, bits@) == s);
            lemma_path_ext(b0, b1, env, siblings@);
            let top = protocol::climb(
                h,
                bytes::nat_of(s),
                wire_bytes(b1, env, leafw),
                path_bytes(b0, env, siblings@),
                depth,
            );
            assert(wire_bytes(b2, env, node@) == top);
            assert(netlist::bits(b3, env, node@) == netlist::bits(b2, env, node@));
            let k = bytes::nat_of(s.skip(depth as int)) as int;
            lemma_ancestor_bits(s, depth);
            bytes::lemma_nat_of_bound(s.skip(depth as int));
            assert(netlist::bits(b2, env, hw) =~= s.skip(depth as int)) by {
                assert(netlist::bits(b2, env, bits@) == s);
            }
            assert(netlist::bits(b3, env, root@) == netlist::bits(b2, env, roots@[k]@));
            let cb = netlist::bits(b0, env, cap);
            assert(netlist::bits(b2, env, roots@[k]@) =~= cb.subrange(256 * k, 256 * k + 256)) by {
                assert(netlist::bits(b2, env, cap) == cb);
                assert(roots@[k]@ == cap.subrange(256 * k, 256 * k + 256));
            }
            lemma_bytes_subrange(cb, 32 * k, 32 * k + 32);
            let x = netlist::bits(b3, env, node@);
            let y = netlist::bits(b3, env, root@);
            assert(bytes::bytes_of_bits(y) == protocol::cap_root(wire_bytes(b0, env, cap), k));
            bytes::lemma_bits_of_bytes_of_bits(x);
            bytes::lemma_bits_of_bytes_of_bits(y);
            protocol::lemma_log2_pow2(height as nat);
            assert(wire_bytes(b0, env, cap).len() / 32 == pow2(height as nat));
        }
    }
    check
}

/// A row's leaf reaches the root of its index in the cap along its path.
pub open spec fn reaches(
    row: Seq<Elt>,
    path: Seq<Seq<u8>>,
    cap: Seq<u8>,
    index: nat,
) -> bool {
    protocol::climb(
        gadget_hash(),
        index,
        gadget_hash()(protocol::row_bytes(row)),
        path,
        path.len(),
    ) == protocol::cap_root(cap, merkle::ancestor(index as int, path.len()))
}

/// The first `k` queries are authentic.
pub open spec fn authentic_up_to(
    rows: Seq<Seq<Elt>>,
    paths: protocol::Paths,
    cap: Seq<u8>,
    queries: Seq<nat>,
    width: nat,
    k: int,
) -> bool {
    forall|q: int|
        0 <= q < k ==> #[trigger] protocol::query_authentic(
            gadget_hash(),
            rows,
            paths,
            cap,
            queries,
            width,
            q,
        )
}

/// Authenticate every query's row against the Merkle cap (`2^h` roots of 32
/// bytes, the root of query index `i` being entry `i >> depth`) and fold it at
/// `fold_point`. Each query is one more check.
#[verifier::rlimit(60)]
pub(crate) fn openings<T: CircuitTrait>(
    b: &mut T,
    opening: &OpeningInputs,
    queries: &Vec<Vec<usize>>,
    width: usize,
    cap: &Vec<usize>,
    fold_point: &[Elem],
    checks: &mut Vec<usize>,
    profile: &mut Profile,
) -> (folds: Vec<Elem>)
    requires
        old(b).inv(),
        old(profile).wf(old(b)@),
        netlist::below(old(checks)@, old(b)@.next),
        cap@.len() == 256 * pow2(protocol::log2(cap@.len() / 256)),
        protocol::log2(cap@.len() / 256) <= width,
        netlist::below(cap@, old(b)@.next),
        opening.wf((width - protocol::log2(cap@.len() / 256)) as nat, old(b)@.next),
        queries@.len() == opening.rows@.len(),
        netlist::all_below(queries@, width as nat, old(b)@.next),
        elems_ok(fold_point@, old(b)@.next),
        forall|q: int|
            0 <= q < opening.rows@.len() ==> (#[trigger] opening.rows@[q])@.len() == pow2(
                fold_point@.len(),
            ),
    ensures
        final(b).inv(),
        netlist::ext(old(b)@, final(b)@),
        final(profile).wf(final(b)@),
        netlist::below(final(checks)@, final(b)@.next),
        folds@.len() == queries@.len(),
        elems_ok(folds@, final(b)@.next),
        forall|env: Env| #[trigger]
            netlist::words(final(b)@, env, folds@) == protocol::folds(
                opening.rows_at(old(b)@, env),
                netlist::words(old(b)@, env, fold_point@),
            ),
        forall|env: Env| #[trigger]
            hold(final(b)@, env, final(checks)@) == (hold(old(b)@, env, old(checks)@)
                && protocol::opening_authentic(
                gadget_hash(),
                opening.rows_at(old(b)@, env),
                opening.paths_at(old(b)@, env),
                wire_bytes(old(b)@, env, cap@),
                positions(old(b)@, env, queries@),
                width as nat,
            )),
{
    let ghost first = b@;
    let ghost checks0 = checks@;
    let height = {
        proof {
            vstd::arithmetic::power2::lemma_pow2_pos(protocol::log2(cap@.len() / 256));
        }
        reference::floor_log2(cap.len() / 256)
    };
    let ghost depth = (width - height) as nat;
    let roots = cap_roots(cap);
    let n = queries.len();
    let ghost ok = |env: Env, k: int|
        authentic_up_to(
            opening.rows_at(first, env),
            opening.paths_at(first, env),
            wire_bytes(first, env, cap@),
            positions(first, env, queries@),
            width as nat,
            k,
        );
    let mut folds: Vec<Elem> = Vec::new();
    proof {
        netlist::lemma_ext_refl(first);
        assert(netlist::all_below(roots@, 256, first.next));
    }
    while folds.len() < n
        invariant
            b.inv(),
            n == queries@.len() == opening.rows@.len(),
            netlist::ext(first, b@),
            profile.wf(b@),
            netlist::below(checks@, b@.next),
            ok == (|env: Env, k: int|
                authentic_up_to(
                    opening.rows_at(first, env),
                    opening.paths_at(first, env),
                    wire_bytes(first, env, cap@),
                    positions(first, env, queries@),
                    width as nat,
                    k,
                )),
            height == protocol::log2(cap@.len() / 256),
            height <= width,
            depth == width - height,
            roots@.len() == pow2(height as nat),
            cap@.len() == 256 * roots@.len(),
            netlist::below(cap@, first.next),
            netlist::all_below(roots@, 256, first.next),
            forall|k: int|
                0 <= k < roots@.len() ==> (#[trigger] roots@[k])@ == cap@.subrange(
                    256 * k,
                    256 * k + 256,
                ),
            opening.wf(depth, first.next),
            netlist::all_below(queries@, width as nat, first.next),
            elems_ok(fold_point@, first.next),
            forall|q: int|
                0 <= q < opening.rows@.len() ==> (#[trigger] opening.rows@[q])@.len() == pow2(
                    fold_point@.len(),
                ),
            folds@.len() <= n,
            elems_ok(folds@, b@.next),
            forall|env: Env, q: int|
                0 <= q < folds@.len() ==> #[trigger] netlist::bits(b@, env, folds@[q]@)
                    == protocol::eval_multilinear(
                    netlist::words(first, env, opening.rows@[q]@),
                    netlist::words(first, env, fold_point@),
                ),
            forall|env: Env| #[trigger]
                hold(b@, env, checks@) == (hold(first, env, checks0) && ok(
                    env,
                    folds@.len() as int,
                )),
        decreases n - folds@.len(),
    {
        let k = folds.len();
        let ghost c0 = b@;
        let ghost folds0 = folds@;
        let ghost ck0 = checks@;
        proof {
            assert(elems_ok(opening.rows@[k as int]@, first.next));
            assert(opening.siblings@[k as int]@.len() == depth && netlist::all_below(
                opening.siblings@[k as int]@,
                256,
                first.next,
            ));
            assert(queries@[k as int]@.len() == width && netlist::below(
                queries@[k as int]@,
                first.next,
            ));
            assert(opening.rows@[k as int]@.len() == pow2(fold_point@.len()));
            assert(elems_ok(opening.rows@[k as int]@, c0.next));
        }
        let check = query_check(
            b,
            &opening.rows[k],
            &opening.siblings[k],
            &queries[k],
            &roots,
            height,
            profile,
            Ghost(cap@),
        );
        let ghost c1 = b@;
        checks.push(check);
        let fold = wire_arith::eval_multilinear(b, opening.rows[k].as_slice(), fold_point);
        profile.mark(b, Phase::QueryFolds);
        folds.push(fold);
        proof {
            assert forall|env: Env, q: int|
                0 <= q < folds@.len() implies #[trigger] netlist::bits(b@, env, folds@[q]@)
                == protocol::eval_multilinear(
                netlist::words(first, env, opening.rows@[q]@),
                netlist::words(first, env, fold_point@),
            ) by {
                if q < k {
                    assert(folds@[q] == folds0[q]);
                    assert(elem_ok(folds0[q]@, c0.next));
                    assert(netlist::bits(c0, env, folds0[q]@) == netlist::bits(
                        b@,
                        env,
                        folds0[q]@,
                    ));
                } else {
                    assert(netlist::words(c1, env, opening.rows@[q]@) == netlist::words(
                        first,
                        env,
                        opening.rows@[q]@,
                    ));
                }
            }
            assert forall|env: Env| #[trigger]
                hold(b@, env, checks@) == (hold(first, env, checks0) && ok(env, k + 1)) by {
                lemma_hold_step(c0, c1, b@, env, ck0, check);
                let rows = opening.rows_at(first, env);
                let paths = opening.paths_at(first, env);
                let capb = wire_bytes(first, env, cap@);
                let qs = positions(first, env, queries@);
                let row = opening.rows@[k as int]@;
                let sibs = opening.siblings@[k as int]@;
                assert(netlist::words(c0, env, row) == rows[k as int]);
                lemma_path_ext(first, c0, env, sibs);
                assert(path_bytes(first, env, sibs) =~= paths[k as int]);
                assert(wire_bytes(c0, env, cap@) == capb);
                assert(netlist::bits(c0, env, queries@[k as int]@) == netlist::bits(
                    first,
                    env,
                    queries@[k as int]@,
                ));
                assert(capb.len() / 32 == cap@.len() / 256);
                assert(protocol::path_depth(capb, width as nat) == depth);
                assert(paths[k as int].len() == depth);
                assert(netlist::value(c1, env, check as int) == protocol::query_authentic(
                    gadget_hash(),
                    rows,
                    paths,
                    capb,
                    qs,
                    width as nat,
                    k as int,
                ));
                assert(hold(c0, env, ck0) == (hold(first, env, checks0) && ok(env, k as int)));
                if ok(env, k + 1) {
                    assert(protocol::query_authentic(
                        gadget_hash(),
                        rows,
                        paths,
                        capb,
                        qs,
                        width as nat,
                        k as int,
                    ));
                }
            }
        }
    }
    proof {
        assert forall|env: Env| #[trigger]
            netlist::words(b@, env, folds@) == protocol::folds(
                opening.rows_at(first, env),
                netlist::words(first, env, fold_point@),
            ) by {
            let want = protocol::folds(
                opening.rows_at(first, env),
                netlist::words(first, env, fold_point@),
            );
            assert forall|q: int| 0 <= q < n implies netlist::words(b@, env, folds@)[q]
                == want[q] by {
                assert(netlist::bits(b@, env, folds@[q]@) == protocol::eval_multilinear(
                    netlist::words(first, env, opening.rows@[q]@),
                    netlist::words(first, env, fold_point@),
                ));
            }
            assert(netlist::words(b@, env, folds@) =~= want);
        }
    }
    folds
}

/// One more check, and gates after it.
proof fn lemma_hold_step(c0: Netlist, c1: Netlist, c2: Netlist, env: Env, ws: Seq<usize>, w: usize)
    requires
        netlist::ext(c0, c1),
        netlist::ext(c1, c2),
        netlist::below(ws, c0.next),
        w < c1.next,
    ensures
        hold(c2, env, ws.push(w)) == (hold(c0, env, ws) && netlist::value(c1, env, w as int)),
{
    wire_transcript::lemma_hold_push(c2, env, ws, w);
    assert(netlist::bits(c2, env, ws) == netlist::bits(c0, env, ws));
}

proof fn lemma_path_ext(a: Netlist, b: Netlist, env: Env, siblings: Seq<Vec<usize>>)
    requires
        netlist::ext(a, b),
        netlist::all_below(siblings, 256, a.next),
    ensures
        path_bytes(b, env, siblings) == path_bytes(a, env, siblings),
{
    assert forall|l: int| 0 <= l < siblings.len() implies path_bytes(b, env, siblings)[l]
        == path_bytes(a, env, siblings)[l] by {
        assert(netlist::below(siblings[l]@, a.next));
    }
    assert(path_bytes(b, env, siblings) =~= path_bytes(a, env, siblings));
}

} // verus!

//! The duplex sponge of the transcript, buffering and all, and what a transcript
//! needs of its challenger.
use super::schedule;
use super::schedule::Machine;
use crate::poseidon2::constants::P;
use crate::poseidon2::ext4;
use crate::poseidon2::ext4::Quad;
use crate::poseidon2::field;
use crate::poseidon2::reference as permutation;
use vstd::arithmetic::power2::{lemma_pow2_pos, lemma_pow2_unfold, pow2};
use vstd::prelude::*;

verus! {

/// The sponge's rate.
pub const RATE: usize = 8;

/// The most bits one draw gives uniformly.
pub const MAX_SINGLE_SAMPLE_BITS: usize = 24;

// ---------------------------------------------------------------------------
// The sponge as mathematics.
// ---------------------------------------------------------------------------

/// A step of a transcript: an element observed or sampled.
pub enum Action {
    Observe,
    Sample,
}

/// A sponge with its two buffers.
#[verifier::ext_equal]
pub struct Duplex {
    pub state: Seq<int>,
    /// Observed elements not yet absorbed.
    pub input: Seq<int>,
    /// Rate elements not yet read; reads take the last.
    pub output: Seq<int>,
    /// Permutations so far.
    pub permutations: nat,
    /// Whether a draw by rejection never ended.
    pub stuck: bool,
    /// Every element observed, in order.
    pub seen: Seq<int>,
    /// Every element sampled, in order.
    pub drawn: Seq<int>,
    /// Every element observed or sampled, in the order of the calls.
    pub log: Seq<int>,
    /// The calls, in order.
    pub calls: Seq<Action>,
}

/// The sponge over the zero state.
pub open spec fn fresh() -> Duplex {
    Duplex {
        state: permutation::zeros(16),
        input: Seq::empty(),
        output: Seq::empty(),
        permutations: 0,
        stuck: false,
        seen: Seq::empty(),
        drawn: Seq::empty(),
        log: Seq::empty(),
        calls: Seq::empty(),
    }
}

/// The state a duplexing permutes: `k` inputs over the rate, zeros after them and
/// `k` added to the first capacity element; the state itself for none.
pub open spec fn loaded(state: Seq<int>, inputs: Seq<int>) -> Seq<int> {
    if inputs.len() == 0 {
        state
    } else {
        Seq::new(
            16,
            |i: int|
                if i < inputs.len() {
                    inputs[i]
                } else if i < RATE {
                    0
                } else if i == RATE {
                    field::plus(state[i], inputs.len() as int)
                } else {
                    state[i]
                },
        )
    }
}

/// The state after a duplexing.
pub open spec fn permuted(state: Seq<int>, inputs: Seq<int>) -> Seq<int> {
    permutation::permutation(loaded(state, inputs))
}

/// Absorbing the buffered inputs, or squeezing with none, refills the output.
pub open spec fn duplexed(d: Duplex) -> Duplex {
    let state = permuted(d.state, d.input);
    Duplex {
        state,
        input: Seq::empty(),
        output: state.take(RATE as int),
        permutations: d.permutations + 1,
        ..d
    }
}

/// Observing an element makes buffered outputs stale, and duplexes at a full
/// rate.
pub open spec fn observed(d: Duplex, v: int) -> Duplex {
    let e = Duplex {
        input: d.input.push(v),
        output: Seq::empty(),
        seen: d.seen.push(v),
        log: d.log.push(v),
        calls: d.calls.push(Action::Observe),
        ..d
    };
    if e.input.len() == RATE {
        duplexed(e)
    } else {
        e
    }
}

/// The sponge a sample reads: duplexed if anything is pending or nothing is left.
pub open spec fn primed(d: Duplex) -> Duplex {
    if d.input.len() > 0 || d.output.len() == 0 {
        duplexed(d)
    } else {
        d
    }
}

/// One element: the last unread one of the rate.
pub open spec fn sampled(d: Duplex) -> (Duplex, int) {
    let e = primed(d);
    let v = e.output.last();
    let after = Duplex {
        output: e.output.drop_last(),
        drawn: e.drawn.push(v),
        log: e.log.push(v),
        calls: e.calls.push(Action::Sample),
        ..e
    };
    (after, v)
}

/// The sponge as a machine of the transcript.
pub open spec fn duplex() -> Machine<Duplex> {
    Machine {
        absorb: |d: Duplex, v: u32| observed(d, v as int),
        draw: |d: Duplex| (sampled(d).0, sampled(d).1 as u32),
    }
}

/// The buffers' shape.
pub open spec fn wf(d: Duplex) -> bool {
    &&& d.state.len() == 16
    &&& d.input.len() < RATE
    &&& d.output.len() <= RATE
    &&& permutation::canonical(d.output)
    &&& d.output == d.state.take(d.output.len() as int)
    &&& d.input.len() > 0 ==> d.output.len() == 0
}

pub open spec fn observed_all(d: Duplex, vs: Seq<u32>) -> Duplex
    decreases vs.len(),
{
    if vs.len() == 0 {
        d
    } else {
        observed(observed_all(d, vs.drop_last()), vs.last() as int)
    }
}

pub open spec fn observed_quad(d: Duplex, x: Seq<u32>) -> Duplex {
    observed(
        observed(observed(observed(d, x[0] as int), x[1] as int), x[2] as int),
        x[3] as int,
    )
}

/// Every element of a list.
pub open spec fn observed_quads(d: Duplex, xs: Seq<[u32; 4]>) -> Duplex
    decreases xs.len(),
{
    if xs.len() == 0 {
        d
    } else {
        observed_quad(observed_quads(d, xs.drop_last()), xs.last()@)
    }
}

/// Four samples, the coefficients in draw order.
pub open spec fn sampled_quad(d: Duplex) -> (Duplex, Quad) {
    let (d1, a) = sampled(d);
    let (d2, b) = sampled(d1);
    let (d3, c) = sampled(d2);
    let (d4, e) = sampled(d3);
    (d4, Quad { a, b, c, d: e })
}

/// The low `bits` bits of one sample.
pub open spec fn sampled_bits(d: Duplex, bits: nat) -> (Duplex, int) {
    let (e, v) = sampled(d);
    (e, v % (pow2(bits) as int))
}

/// A proof of work: the witness absorbed, `bits` sampled bits must be zero.
pub open spec fn worked(d: Duplex, bits: nat, witness: int) -> (Duplex, bool) {
    if bits == 0 {
        (d, true)
    } else {
        let (e, v) = sampled_bits(observed(d, witness), bits);
        (e, v == 0)
    }
}

/// The sample after `k` others.
pub open spec fn sampled_at(d: Duplex, k: nat) -> (Duplex, int)
    decreases k,
{
    if k == 0 {
        sampled(d)
    } else {
        sampled(sampled_at(d, (k - 1) as nat).0)
    }
}

/// Sample `k` is the first below `m`.
pub open spec fn is_first(d: Duplex, m: int, k: nat) -> bool {
    &&& sampled_at(d, k).1 < m
    &&& forall|j: nat| j < k ==> (#[trigger] sampled_at(d, j)).1 >= m
}

/// Some sample is below `m`.
pub open spec fn stops(d: Duplex, m: int) -> bool {
    exists|k: nat| is_first(d, m, k)
}

/// The samples before the first below `m`.
pub open spec fn rejected(d: Duplex, m: int) -> nat {
    choose|k: nat| is_first(d, m, k)
}

/// The largest multiple of `2^bits` up to the field's order.
pub open spec fn threshold(bits: nat) -> int {
    ((P as int) / (pow2(bits) as int)) * pow2(bits)
}

/// Draws until one is below the threshold, and its low bits.
pub open spec fn drawn_chunk(d: Duplex, bits: nat) -> (Duplex, int) {
    let m = threshold(bits);
    if stops(d, m) {
        let (e, v) = sampled_at(d, rejected(d, m));
        (e, v % (pow2(bits) as int))
    } else {
        (Duplex { stuck: true, ..d }, 0)
    }
}

/// `bits` uniform bits: one chunk, or two halves past
/// [`MAX_SINGLE_SAMPLE_BITS`].
pub open spec fn drawn_bits(d: Duplex, bits: nat) -> (Duplex, int) {
    if bits == 0 {
        (d, 0)
    } else if bits <= MAX_SINGLE_SAMPLE_BITS {
        drawn_chunk(d, bits)
    } else {
        let half = bits / 2;
        let (e, low) = drawn_chunk(d, half);
        let (f, high) = drawn_chunk(e, (bits - half) as nat);
        (f, low + high * pow2(half))
    }
}

// ---------------------------------------------------------------------------
// Facts.
// ---------------------------------------------------------------------------

pub broadcast proof fn lemma_observed(d: Duplex, v: int)
    requires
        wf(d),
    ensures
        wf(#[trigger] observed(d, v)),
        observed(d, v).stuck == d.stuck,
{
    permutation::lemma_permutation(loaded(d.state, d.input.push(v)));
    assert(Seq::<int>::empty() =~= d.state.take(0));
}

pub broadcast proof fn lemma_sampled(d: Duplex)
    requires
        wf(d),
    ensures
        wf((#[trigger] sampled(d)).0),
        sampled(d).0.stuck == d.stuck,
        field::canonical(sampled(d).1),
        sampled(d).0.input.len() == 0,
{
    permutation::lemma_permutation(loaded(d.state, d.input));
    let e = primed(d);
    assert(permutation::canonical(e.output));
    assert(e.output.drop_last() =~= e.state.take(e.output.len() - 1));
}

pub broadcast group group_sponge {
    lemma_observed,
    lemma_sampled,
}

/// The sponge after the calls, where each observation takes the next element of
/// `u`.
pub open spec fn followed(calls: Seq<Action>, u: Seq<int>) -> Duplex
    decreases calls.len(),
{
    if calls.len() == 0 {
        fresh()
    } else {
        let d = followed(calls.drop_last(), u);
        match calls.last() {
            Action::Observe => observed(d, u[d.seen.len() as int]),
            Action::Sample => sampled(d).0,
        }
    }
}

/// The sponge's shape depends on the calls alone, and it observes the elements in
/// order.
pub proof fn law_followed(calls: Seq<Action>, u: Seq<int>, v: Seq<int>)
    ensures
        wf(followed(calls, u)),
        !followed(calls, u).stuck,
        followed(calls, u).calls == calls,
        followed(calls, u).input.len() == followed(calls, v).input.len(),
        followed(calls, u).output.len() == followed(calls, v).output.len(),
        followed(calls, u).permutations == followed(calls, v).permutations,
        followed(calls, u).seen.len() == followed(calls, v).seen.len(),
        followed(calls, u).drawn.len() == followed(calls, v).drawn.len(),
        forall|i: int|
            0 <= i < followed(calls, u).seen.len() ==> #[trigger] followed(calls, u).seen[i]
                == u[i],
        permutation::canonical(followed(calls, u).drawn),
    decreases calls.len(),
{
    if calls.len() == 0 {
        assert(Seq::<int>::empty() =~= permutation::zeros(16).take(0));
    } else {
        let c = calls.drop_last();
        law_followed(c, u, v);
        law_followed(c, v, u);
        let d = followed(c, u);
        let e = followed(c, v);
        let x = u[d.seen.len() as int];
        let y = v[e.seen.len() as int];
        lemma_observed(d, x);
        lemma_sampled(d);
        permutation::lemma_permutation(loaded(d.state, d.input));
        permutation::lemma_permutation(loaded(e.state, e.input));
        permutation::lemma_permutation(loaded(d.state, d.input.push(x)));
        permutation::lemma_permutation(loaded(e.state, e.input.push(y)));
        assert(c.push(calls.last()) =~= calls);
    }
}

/// Only the elements observed matter.
pub proof fn law_followed_prefix(calls: Seq<Action>, u: Seq<int>, v: Seq<int>)
    requires
        forall|i: int| 0 <= i < followed(calls, u).seen.len() ==> #[trigger] u[i] == v[i],
    ensures
        followed(calls, u) == followed(calls, v),
    decreases calls.len(),
{
    if calls.len() > 0 {
        let c = calls.drop_last();
        assert(followed(c, u).seen.len() <= followed(calls, u).seen.len());
        law_followed_prefix(c, u, v);
        law_followed(c, u, v);
        match calls.last() {
            Action::Observe => {
                let n = followed(c, u).seen.len() as int;
                assert(followed(calls, u).seen.len() == n + 1);
                assert(u[n] == v[n]);
            },
            Action::Sample => {},
        }
    }
}

/// A sponge is the one its calls make of what it saw.
pub open spec fn traced(d: Duplex) -> bool {
    d == followed(d.calls, d.seen)
}

/// Every call keeps that.
pub proof fn lemma_traced(d: Duplex, v: int)
    requires
        traced(d),
    ensures
        traced(observed(d, v)),
        traced(sampled(d).0),
{
    let o = observed(d, v);
    assert(o.calls.drop_last() =~= d.calls);
    law_followed_prefix(d.calls, d.seen, o.seen);
    assert(o.seen[d.seen.len() as int] == v);
    let e = sampled(d).0;
    assert(e.calls.drop_last() =~= d.calls);
    assert(e.seen == d.seen);
}

pub broadcast proof fn lemma_observed_all(d: Duplex, vs: Seq<u32>)
    requires
        wf(d),
    ensures
        wf(#[trigger] observed_all(d, vs)),
        observed_all(d, vs).stuck == d.stuck,
    decreases vs.len(),
{
    broadcast use group_sponge;

    if vs.len() > 0 {
        lemma_observed_all(d, vs.drop_last());
    }
}

pub broadcast proof fn lemma_observed_quad(d: Duplex, x: Seq<u32>)
    requires
        wf(d),
    ensures
        wf(#[trigger] observed_quad(d, x)),
        observed_quad(d, x).stuck == d.stuck,
{
    broadcast use group_sponge;

}

pub broadcast proof fn lemma_observed_quads(d: Duplex, xs: Seq<[u32; 4]>)
    requires
        wf(d),
    ensures
        wf(#[trigger] observed_quads(d, xs)),
        observed_quads(d, xs).stuck == d.stuck,
    decreases xs.len(),
{
    if xs.len() > 0 {
        lemma_observed_quads(d, xs.drop_last());
        lemma_observed_quad(observed_quads(d, xs.drop_last()), xs.last()@);
    }
}

pub broadcast proof fn lemma_sampled_quad(d: Duplex)
    requires
        wf(d),
    ensures
        wf((#[trigger] sampled_quad(d)).0),
        sampled_quad(d).0.stuck == d.stuck,
        ext4::canonical(sampled_quad(d).1),
{
    broadcast use group_sponge;

}

pub broadcast proof fn lemma_worked(d: Duplex, bits: nat, witness: int)
    requires
        wf(d),
    ensures
        wf((#[trigger] worked(d, bits, witness)).0),
        worked(d, bits, witness).0.stuck == d.stuck,
{
    broadcast use group_sponge;

}

pub proof fn lemma_sampled_at(d: Duplex, k: nat)
    requires
        wf(d),
    ensures
        wf(sampled_at(d, k).0),
        sampled_at(d, k).0.stuck == d.stuck,
        field::canonical(sampled_at(d, k).1),
    decreases k,
{
    broadcast use group_sponge;

    if k > 0 {
        lemma_sampled_at(d, (k - 1) as nat);
    }
}

pub proof fn lemma_first_unique(d: Duplex, m: int, j: nat, k: nat)
    requires
        is_first(d, m, j),
        is_first(d, m, k),
    ensures
        j == k,
{
    if j < k {
        assert(sampled_at(d, j).1 >= m);
    }
    if k < j {
        assert(sampled_at(d, k).1 >= m);
    }
}

pub proof fn lemma_drawn_chunk(d: Duplex, bits: nat)
    requires
        wf(d),
    ensures
        wf(drawn_chunk(d, bits).0),
        d.stuck ==> drawn_chunk(d, bits).0.stuck,
        !drawn_chunk(d, bits).0.stuck ==> stops(d, threshold(bits)),
        0 <= drawn_chunk(d, bits).1 < pow2(bits),
{
    lemma_pow2_pos(bits);
    let m = threshold(bits);
    if stops(d, m) {
        lemma_sampled_at(d, rejected(d, m));
        let v = sampled_at(d, rejected(d, m)).1;
        vstd::arithmetic::div_mod::lemma_mod_bound(v, pow2(bits) as int);
    }
}

pub broadcast proof fn lemma_drawn_bits(d: Duplex, bits: nat)
    requires
        wf(d),
    ensures
        wf((#[trigger] drawn_bits(d, bits)).0),
        d.stuck ==> drawn_bits(d, bits).0.stuck,
        0 <= drawn_bits(d, bits).1 < pow2(bits),
{
    lemma_pow2_pos(bits);
    if bits > 0 && bits <= MAX_SINGLE_SAMPLE_BITS {
        lemma_drawn_chunk(d, bits);
    } else if bits > 0 {
        let half = bits / 2;
        let rest = (bits - half) as nat;
        lemma_drawn_chunk(d, half);
        let (e, low) = drawn_chunk(d, half);
        lemma_drawn_chunk(e, rest);
        let (f, high) = drawn_chunk(e, rest);
        vstd::arithmetic::power2::lemma_pow2_adds(half, rest);
        let (a, b) = (pow2(half) as int, pow2(rest) as int);
        assert(low + high * a < a * b) by (nonlinear_arith)
            requires
                0 <= low < a,
                0 <= high < b,
        ;
        assert(low + high * a >= 0) by (nonlinear_arith)
            requires
                0 <= low,
                0 <= high,
                a > 0,
        ;
    }
}

// ---------------------------------------------------------------------------
// The sponge as a machine.
// ---------------------------------------------------------------------------

pub broadcast proof fn lemma_machine_all(d: Duplex, vs: Seq<u32>)
    ensures
        #[trigger] schedule::absorb_all(duplex(), d, vs) == observed_all(d, vs),
    decreases vs.len(),
{
    if vs.len() > 0 {
        lemma_machine_all(d, vs.drop_last());
    }
}

pub broadcast proof fn lemma_machine_absorb_quad(d: Duplex, x: Seq<u32>)
    ensures
        #[trigger] schedule::absorb_quad(duplex(), d, x) == observed_quad(d, x),
{
}

pub broadcast proof fn lemma_machine_quads(d: Duplex, xs: Seq<[u32; 4]>)
    ensures
        #[trigger] schedule::absorb_quads(duplex(), d, xs) == observed_quads(d, xs),
    decreases xs.len(),
{
    if xs.len() > 0 {
        lemma_machine_quads(d, xs.drop_last());
    }
}

pub broadcast proof fn lemma_machine_quad(d: Duplex)
    requires
        wf(d),
    ensures
        #[trigger] schedule::draw_quad(duplex(), d) == sampled_quad(d),
{
    broadcast use group_sponge;

}

pub broadcast proof fn lemma_machine_witness(d: Duplex, bits: nat, witness: u32)
    requires
        wf(d),
    ensures
        #[trigger] schedule::check_witness(duplex(), d, bits, witness) == worked(
            d,
            bits,
            witness as int,
        ),
{
    broadcast use group_sponge;

}

pub broadcast group group_machine {
    lemma_machine_all,
    lemma_machine_absorb_quad,
    lemma_machine_quads,
    lemma_machine_quad,
    lemma_machine_witness,
}

proof fn lemma_machine_at(d: Duplex, k: nat)
    requires
        wf(d),
    ensures
        schedule::draw_at(duplex(), d, k).0 == sampled_at(d, k).0,
        schedule::draw_at(duplex(), d, k).1 as int == sampled_at(d, k).1,
    decreases k,
{
    lemma_sampled_at(d, k);
    if k > 0 {
        lemma_machine_at(d, (k - 1) as nat);
    }
}

proof fn lemma_machine_first(d: Duplex, m: int, k: nat)
    requires
        wf(d),
    ensures
        schedule::is_first(duplex(), d, m, k) == is_first(d, m, k),
{
    lemma_machine_at(d, k);
    if schedule::is_first(duplex(), d, m, k) {
        assert forall|j: nat| j < k implies (#[trigger] sampled_at(d, j)).1 >= m by {
            lemma_machine_at(d, j);
            assert(schedule::draw_at(duplex(), d, j).1 >= m);
        }
    }
    if is_first(d, m, k) {
        assert forall|j: nat| j < k implies (#[trigger] schedule::draw_at(duplex(), d, j)).1
            >= m by {
            lemma_machine_at(d, j);
            assert(sampled_at(d, j).1 >= m);
        }
    }
}

/// What the schedule says of a sponge is `r`, or that a draw never ended and `r`
/// is marked so.
pub open spec fn ends<T>(o: Option<(Duplex, T)>, r: (Duplex, T)) -> bool {
    match o {
        Some(x) => !r.0.stuck && x == r,
        None => r.0.stuck,
    }
}

pub proof fn lemma_machine_chunk(d: Duplex, bits: nat)
    requires
        wf(d),
        !d.stuck,
    ensures
        ends(schedule::draw_chunk(duplex(), d, bits), drawn_chunk(d, bits)),
{
    let m = threshold(bits);
    if stops(d, m) {
        let k = rejected(d, m);
        lemma_machine_first(d, m, k);
        let j = choose|k: nat| schedule::is_first(duplex(), d, m, k);
        lemma_machine_first(d, m, j);
        lemma_first_unique(d, m, j, k);
        lemma_machine_at(d, k);
        lemma_sampled_at(d, k);
    } else if exists|k: nat| schedule::is_first(duplex(), d, m, k) {
        let j = choose|k: nat| schedule::is_first(duplex(), d, m, k);
        lemma_machine_first(d, m, j);
    }
}

pub proof fn lemma_machine_bits(d: Duplex, bits: nat)
    requires
        wf(d),
        !d.stuck,
    ensures
        ends(schedule::draw_bits(duplex(), d, bits), drawn_bits(d, bits)),
{
    if bits > 0 && bits <= MAX_SINGLE_SAMPLE_BITS {
        lemma_machine_chunk(d, bits);
    } else if bits > 0 {
        let half = bits / 2;
        let rest = (bits - half) as nat;
        lemma_machine_chunk(d, half);
        let e = drawn_chunk(d, half).0;
        lemma_drawn_chunk(d, half);
        lemma_drawn_chunk(e, rest);
        if !e.stuck {
            lemma_machine_chunk(e, rest);
        }
    }
}

/// A draw after an observation comes from a new permutation.
pub proof fn law_observing_forces_a_permutation(d: Duplex, v: int)
    requires
        wf(d),
    ensures
        sampled(observed(d, v)).0.permutations == d.permutations + 1,
{
    permutation::lemma_permutation(loaded(d.state, d.input.push(v)));
}

/// A permutation's eight rate elements are read from the last to the first
/// before the next permutation.
pub proof fn law_samples_read_the_rate_backwards(d: Duplex, k: nat)
    requires
        wf(d),
        d.input.len() == 0,
        k < d.output.len(),
    ensures
        sampled_at(d, k).1 == d.output[d.output.len() - 1 - k],
        sampled_at(d, k).0.output == d.output.take(d.output.len() - 1 - k),
        sampled_at(d, k).0.input.len() == 0,
        sampled_at(d, k).0.permutations == d.permutations,
    decreases k,
{
    if k == 0 {
        assert(d.output.drop_last() =~= d.output.take(d.output.len() - 1));
    } else {
        law_samples_read_the_rate_backwards(d, (k - 1) as nat);
        let e = sampled_at(d, (k - 1) as nat).0;
        assert(e.output.drop_last() =~= d.output.take(d.output.len() - 1 - k));
    }
}

// ---------------------------------------------------------------------------
// The sponge, run.
// ---------------------------------------------------------------------------

/// One duplexing for a known absorb count.
///
/// Overwrites the leading `k` rate slots, zeroes the rest of the rate, binds `k`
/// into the first capacity element so that length and zero-padding cannot
/// collide, then permutes. `k == 0` is a squeeze: permute only.
pub fn duplexing(state: &mut [u32; 16], inputs: &[u32])
    requires
        inputs@.len() <= RATE,
    ensures
        permutation::ints(final(state)@) == permuted(
            permutation::ints(old(state)@),
            permutation::ints(inputs@),
        ),
        forall|i: int| 0 <= i < 16 ==> (#[trigger] final(state)@[i]) < P,
{
    let ghost s = permutation::ints(state@);
    let ghost ins = permutation::ints(inputs@);
    let k = inputs.len();
    let mut i: usize = 0;
    while i < k
        invariant
            i <= k <= 8,
            k == inputs@.len(),
            s.len() == 16,
            ins == permutation::ints(inputs@),
            forall|j: int| 0 <= j < i ==> (#[trigger] state@[j]) as int == ins[j],
            forall|j: int| i <= j < 16 ==> (#[trigger] state@[j]) as int == s[j],
        decreases k - i,
    {
        state[i] = inputs[i];
        i = i + 1;
    }
    if k > 0 {
        let mut z: usize = k;
        while z < 8
            invariant
                k <= z <= 8,
                s.len() == 16,
                ins.len() == k,
                forall|j: int| 0 <= j < k ==> (#[trigger] state@[j]) as int == ins[j],
                forall|j: int| k <= j < z ==> (#[trigger] state@[j]) == 0,
                forall|j: int| z <= j < 16 ==> (#[trigger] state@[j]) as int == s[j],
            decreases 8 - z,
        {
            state[z] = 0;
            z = z + 1;
        }
        assert(state@[8] as int == s[8]);
        state[8] = field::add(state[8], k as u32);
    }
    assert(permutation::ints(state@) =~= loaded(s, ins));
    permutation::permute(state);
}

/// The squeezed values: the rate after a duplexing.
pub fn squeeze(state: &mut [u32; 16]) -> (out: [u32; 8])
    ensures
        permutation::ints(final(state)@) == permuted(
            permutation::ints(old(state)@),
            Seq::empty(),
        ),
        out@ == final(state)@.take(8),
{
    let none: Vec<u32> = Vec::new();
    assert(permutation::ints(none@) =~= Seq::<int>::empty());
    duplexing(state, none.as_slice());
    permutation::rate_of(state)
}

/// `2^n`.
pub(crate) fn two_to_u32(n: usize) -> (r: u32)
    requires
        n < 32,
    ensures
        r == pow2(n as nat),
{
    let mut r: u32 = 1;
    let mut i: usize = 0;
    proof {
        vstd::arithmetic::power2::lemma2_to64();
    }
    while i < n
        invariant
            i <= n < 32,
            r == pow2(i as nat),
        decreases n - i,
    {
        proof {
            lemma_pow2_unfold((i + 1) as nat);
            vstd::arithmetic::power2::lemma2_to64();
            if i + 1 < 31 {
                vstd::arithmetic::power2::lemma_pow2_strictly_increases((i + 1) as nat, 31);
            }
        }
        r = r * 2;
        i = i + 1;
    }
    r
}

/// The low `bits` bits of an element, for `2^bits` below the field's order.
pub fn sample_bits(rate_element: u32, bits: usize) -> (r: u32)
    requires
        pow2(bits as nat) < P,
    ensures
        r == (rate_element as int) % (pow2(bits as nat) as int),
{
    proof {
        vstd::arithmetic::power2::lemma2_to64();
        if bits >= 31 {
            if bits > 31 {
                vstd::arithmetic::power2::lemma_pow2_strictly_increases(31, bits as nat);
            }
        }
        lemma_pow2_pos(bits as nat);
    }
    rate_element % two_to_u32(bits)
}

/// The threshold below which an element's low `bits` bits are uniform.
pub(crate) fn threshold_of(bits: usize) -> (m: u32)
    requires
        bits < 32,
    ensures
        m == threshold(bits as nat),
{
    let w = two_to_u32(bits);
    proof {
        lemma_pow2_pos(bits as nat);
        let (p, d) = (P as int, w as int);
        vstd::arithmetic::div_mod::lemma_fundamental_div_mod(p, d);
        vstd::arithmetic::div_mod::lemma_mod_bound(p, d);
        assert((p / d) * d == d * (p / d)) by (nonlinear_arith);
        assert((p / d) * d >= 0) by (nonlinear_arith)
            requires
                p / d >= 0,
                d > 0,
        ;
    }
    (P / w) * w
}

/// What a transcript needs of its challenger: to observe and to sample, and the
/// draws derived from the two. The state and how it changes are the
/// implementor's own.
pub trait Sponge: Sized {
    /// The state that the draws depend on.
    type St;

    spec fn st(&self) -> Self::St;

    /// How the state changes.
    spec fn machine() -> Machine<Self::St>;

    /// The implementor's invariant, if it needs one.
    open spec fn ready(&self) -> bool {
        true
    }

    fn observe(&mut self, value: u32)
        requires
            old(self).ready(),
        ensures
            final(self).ready(),
            final(self).st() == (Self::machine().absorb)(old(self).st(), value),
    ;

    fn sample(&mut self) -> (v: u32)
        requires
            old(self).ready(),
        ensures
            final(self).ready(),
            (final(self).st(), v) == (Self::machine().draw)(old(self).st()),
    ;

    /// Observes every element of a slice.
    fn observe_all(&mut self, values: &[u32])
        requires
            old(self).ready(),
        ensures
            final(self).ready(),
            final(self).st() == schedule::absorb_all(Self::machine(), old(self).st(), values@),
    {
        let ghost d = self.st();
        let n = values.len();
        let mut i: usize = 0;
        assert(values@.take(0) =~= Seq::<u32>::empty());
        while i < n
            invariant
                i <= n,
                n == values@.len(),
                self.ready(),
                self.st() == schedule::absorb_all(Self::machine(), d, values@.take(i as int)),
            decreases n - i,
        {
            self.observe(values[i]);
            assert(values@.take(i + 1).drop_last() =~= values@.take(i as int));
            assert(values@.take(i + 1).last() == values@[i as int]);
            i = i + 1;
        }
        assert(values@.take(n as int) =~= values@);
    }

    fn observe_ef(&mut self, x: &[u32; 4])
        requires
            old(self).ready(),
        ensures
            final(self).ready(),
            final(self).st() == schedule::absorb_quad(Self::machine(), old(self).st(), x@),
    {
        self.observe(x[0]);
        self.observe(x[1]);
        self.observe(x[2]);
        self.observe(x[3]);
    }

    /// Observes every extension element of a slice.
    fn observe_efs(&mut self, values: &[[u32; 4]])
        requires
            old(self).ready(),
        ensures
            final(self).ready(),
            final(self).st() == schedule::absorb_quads(Self::machine(), old(self).st(), values@),
    {
        let ghost d = self.st();
        let n = values.len();
        let mut i: usize = 0;
        assert(values@.take(0) =~= Seq::<[u32; 4]>::empty());
        while i < n
            invariant
                i <= n,
                n == values@.len(),
                self.ready(),
                self.st() == schedule::absorb_quads(Self::machine(), d, values@.take(i as int)),
            decreases n - i,
        {
            self.observe_ef(&values[i]);
            assert(values@.take(i + 1).drop_last() =~= values@.take(i as int));
            assert(values@.take(i + 1).last() == values@[i as int]);
            i = i + 1;
        }
        assert(values@.take(n as int) =~= values@);
    }

    /// An extension element: four base samples, coefficients in draw order.
    fn sample_ef(&mut self) -> (x: [u32; 4])
        requires
            old(self).ready(),
        ensures
            final(self).ready(),
            (final(self).st(), ext4::quad(x@)) == schedule::draw_quad(
                Self::machine(),
                old(self).st(),
            ),
    {
        let a = self.sample();
        let b = self.sample();
        let c = self.sample();
        let d = self.sample();
        [a, b, c, d]
    }

    /// One draw, the low `bits` bits kept.
    fn sample_bits(&mut self, bits: usize) -> (v: u32)
        requires
            old(self).ready(),
            pow2(bits as nat) < P,
        ensures
            final(self).ready(),
            (final(self).st(), v as int) == schedule::draw_low(
                Self::machine(),
                old(self).st(),
                bits as nat,
            ),
    {
        sample_bits(self.sample(), bits)
    }

    /// Absorbs the witness; then `bits` sampled bits must be zero.
    fn check_witness(&mut self, bits: usize, witness: u32) -> (ok: bool)
        requires
            old(self).ready(),
            pow2(bits as nat) < P,
        ensures
            final(self).ready(),
            (final(self).st(), ok) == schedule::check_witness(
                Self::machine(),
                old(self).st(),
                bits as nat,
                witness,
            ),
    {
        if bits == 0 {
            return true;
        }
        self.observe(witness);
        self.sample_bits(bits) == 0
    }

    /// `bits` uniform bits: draws until the element is below the largest multiple
    /// of `2^bits` and keeps its low bits; past 24 bits, two half-width draws are
    /// combined.
    fn sample_uniform_bits(&mut self, bits: usize) -> (v: u32)
        requires
            old(self).ready(),
            bits <= 32,
            schedule::draw_bits(Self::machine(), old(self).st(), bits as nat) is Some,
        ensures
            final(self).ready(),
            Some((final(self).st(), v as int)) == schedule::draw_bits(
                Self::machine(),
                old(self).st(),
                bits as nat,
            ),
    {
        let ghost m = Self::machine();
        let ghost d = self.st();
        if bits == 0 {
            return 0;
        }
        if bits <= MAX_SINGLE_SAMPLE_BITS {
            return self.uniform_chunk(bits);
        }
        let half1 = bits / 2;
        let half2 = bits - half1;
        let chunk1 = self.uniform_chunk(half1);
        let chunk2 = self.uniform_chunk(half2);
        let scale = two_to_u32(half1);
        proof {
            schedule::lemma_draw_bits(m, d, bits as nat);
            vstd::arithmetic::power2::lemma2_to64();
            if bits < 32 {
                vstd::arithmetic::power2::lemma_pow2_strictly_increases(bits as nat, 32);
            }
        }
        assert(chunk2 * scale >= 0) by (nonlinear_arith)
            requires
                chunk2 >= 0,
                scale >= 0,
        ;
        chunk1 + chunk2 * scale
    }

    /// One rejection-sampled chunk of `bits` uniform bits.
    fn uniform_chunk(&mut self, bits: usize) -> (v: u32)
        requires
            old(self).ready(),
            0 < bits < 32,
            schedule::draw_chunk(Self::machine(), old(self).st(), bits as nat) is Some,
        ensures
            final(self).ready(),
            Some((final(self).st(), v as int)) == schedule::draw_chunk(
                Self::machine(),
                old(self).st(),
                bits as nat,
            ),
    {
        let ghost sm = Self::machine();
        let ghost d = self.st();
        let m = threshold_of(bits);
        let w = two_to_u32(bits);
        proof {
            lemma_pow2_pos(bits as nat);
        }
        let ghost last = choose|k: nat| schedule::is_first(sm, d, m as int, k);
        let ghost mut i: nat = 0;
        let mut v = self.sample();
        while v >= m
            invariant
                self.ready(),
                sm == Self::machine(),
                schedule::is_first(sm, d, m as int, last),
                (self.st(), v) == schedule::draw_at(sm, d, i),
                forall|j: nat| j < i ==> (#[trigger] schedule::draw_at(sm, d, j)).1 >= m,
                i <= last,
            decreases last - i,
        {
            proof {
                if i == last {
                    assert(schedule::draw_at(sm, d, last).1 < m);
                }
            }
            v = self.sample();
            proof {
                i = i + 1;
            }
        }
        proof {
            assert(schedule::is_first(sm, d, m as int, i));
            schedule::lemma_first_unique(sm, d, m as int, i, last);
        }
        v % w
    }
}

/// A duplex challenger.
///
/// The bare [`duplexing`] and [`squeeze`] give the permutation's input, but a
/// transcript's challenges depend on when the sponge permutes and which rate
/// slots a sample reads, and two buffers govern those:
/// - observes accumulate until the rate is full or a sample forces a permutation;
/// - samples take the rate from the end, `rate[7]` down to `rate[0]`, before the
///   next permutation.
#[derive(Clone)]
pub struct Challenger {
    state: [u32; 16],
    input: Vec<u32>,
    output: Vec<u32>,
    log: Ghost<Log>,
}

/// What a challenger has been through.
pub struct Log {
    pub permutations: nat,
    pub seen: Seq<int>,
    pub drawn: Seq<int>,
    pub log: Seq<int>,
    pub calls: Seq<Action>,
}

impl Challenger {
    /// The sponge it runs.
    pub closed spec fn duplex_state(&self) -> Duplex {
        Duplex {
            state: permutation::ints(self.state@),
            input: permutation::ints(self.input@),
            output: permutation::ints(self.output@),
            permutations: self.log@.permutations,
            stuck: false,
            seen: self.log@.seen,
            drawn: self.log@.drawn,
            log: self.log@.log,
            calls: self.log@.calls,
        }
    }

    pub closed spec fn inv(&self) -> bool {
        wf(self.duplex_state())
    }

    /// A challenger in a state to run has well-formed buffers.
    pub proof fn lemma_ready(&self)
        requires
            self.ready(),
        ensures
            wf(self.st()),
    {
    }

    /// A challenger over the zero state.
    pub fn new() -> (c: Self)
        ensures
            c.ready(),
            c.st() == fresh(),
    {
        let c = Challenger {
            state: [0; 16],
            input: Vec::new(),
            output: Vec::new(),
            log: Ghost(
                Log {
                    permutations: 0,
                    seen: Seq::empty(),
                    drawn: Seq::empty(),
                    log: Seq::empty(),
                    calls: Seq::empty(),
                },
            ),
        };
        assert(permutation::ints(c.state@) =~= permutation::zeros(16));
        assert(permutation::ints(c.input@) =~= Seq::<int>::empty());
        assert(permutation::ints(c.output@) =~= Seq::<int>::empty());
        assert(Seq::<int>::empty() =~= permutation::zeros(16).take(0));
        c
    }

    /// The current sponge state.
    pub fn state(&self) -> (s: [u32; 16])
        ensures
            permutation::ints(s@) == self.st().state,
    {
        self.state
    }

    /// Absorbs the buffered inputs (or, with none, squeezes) and refills the
    /// output.
    fn duplex(&mut self)
        requires
            old(self).input@.len() <= 8,
        ensures
            final(self).duplex_state() == duplexed(old(self).duplex_state()),
            final(self).inv(),
    {
        duplexing(&mut self.state, self.input.as_slice());
        self.input = Vec::new();
        let rate = permutation::rate_of(&self.state);
        let mut out: Vec<u32> = Vec::new();
        let mut i: usize = 0;
        while i < 8
            invariant
                i <= 8,
                out@ == rate@.take(i as int),
            decreases 8 - i,
        {
            out.push(rate[i]);
            assert(rate@.take(i + 1) =~= rate@.take(i as int).push(rate@[i as int]));
            i = i + 1;
        }
        self.output = out;
        self.log = Ghost(Log { permutations: self.log@.permutations + 1, ..self.log@ });
        proof {
            assert(out@ =~= rate@);
            assert(permutation::ints(self.input@) =~= Seq::<int>::empty());
            let want = duplexed(old(self).duplex_state());
            assert(permutation::ints(self.output@) =~= want.output);
            assert(self.duplex_state() =~= want);
            permutation::lemma_permutation(
                loaded(
                    permutation::ints(old(self).state@),
                    permutation::ints(old(self).input@),
                ),
            );
        }
    }

    /// Absorbs one field element. Buffered outputs are then stale.
    pub fn observe(&mut self, value: u32)
        requires
            old(self).ready(),
        ensures
            final(self).ready(),
            final(self).st() == observed(old(self).st(), value as int),
    {
        let ghost before = self.duplex_state();
        proof {
            lemma_observed(before, value as int);
        }
        self.output = Vec::new();
        self.input.push(value);
        self.log = Ghost(
            Log {
                seen: self.log@.seen.push(value as int),
                log: self.log@.log.push(value as int),
                calls: self.log@.calls.push(Action::Observe),
                ..self.log@
            },
        );
        proof {
            assert(permutation::ints(self.output@) =~= Seq::<int>::empty());
            assert(permutation::ints(self.input@) =~= before.input.push(value as int));
            assert(self.duplex_state() =~= (Duplex {
                input: before.input.push(value as int),
                output: Seq::empty(),
                seen: before.seen.push(value as int),
                log: before.log.push(value as int),
                calls: before.calls.push(Action::Observe),
                ..before
            }));
        }
        if self.input.len() == RATE {
            self.duplex();
        }
    }

    /// One field-element challenge: the next rate slot from the end.
    pub fn sample(&mut self) -> (v: u32)
        requires
            old(self).ready(),
        ensures
            final(self).ready(),
            (final(self).st(), v as int) == sampled(old(self).st()),
            v < P,
    {
        proof {
            lemma_sampled(self.duplex_state());
        }
        if self.input.len() > 0 || self.output.len() == 0 {
            proof {
                permutation::lemma_permutation(
                    loaded(self.duplex_state().state, self.duplex_state().input),
                );
            }
            self.duplex();
        }
        let ghost before = self.duplex_state();
        let n = self.output.len();
        let v = self.output[n - 1];
        self.output.truncate(n - 1);
        self.log = Ghost(
            Log {
                drawn: self.log@.drawn.push(v as int),
                log: self.log@.log.push(v as int),
                calls: self.log@.calls.push(Action::Sample),
                ..self.log@
            },
        );
        proof {
            assert(permutation::ints(self.output@) =~= before.output.drop_last());
            assert(self.duplex_state() =~= (Duplex {
                output: before.output.drop_last(),
                drawn: before.drawn.push(v as int),
                log: before.log.push(v as int),
                calls: before.calls.push(Action::Sample),
                ..before
            }));
            assert(before.output[n - 1] == v as int);
            assert(field::canonical(before.output[n - 1]));
        }
        v
    }

    /// An extension element: four field samples, its coefficients in pop order.
    pub fn sample_ef(&mut self) -> (x: [u32; 4])
        requires
            old(self).ready(),
        ensures
            final(self).ready(),
            (final(self).st(), ext4::quad(x@)) == sampled_quad(old(self).st()),
    {
        proof {
            lemma_machine_quad(self.st());
        }
        Sponge::sample_ef(self)
    }

    /// A query index: the low `bits` of one field sample.
    pub fn sample_bits(&mut self, bits: usize) -> (v: u32)
        requires
            old(self).ready(),
            pow2(bits as nat) < P,
        ensures
            final(self).ready(),
            (final(self).st(), v as int) == sampled_bits(old(self).st(), bits as nat),
    {
        proof {
            lemma_sampled(self.st());
        }
        Sponge::sample_bits(self, bits)
    }

    /// Absorbs a slice, one element at a time (the buffering is what matters).
    pub fn observe_slice(&mut self, values: &[u32])
        requires
            old(self).ready(),
        ensures
            final(self).ready(),
            final(self).st() == observed_all(old(self).st(), values@),
    {
        proof {
            lemma_machine_all(self.st(), values@);
        }
        self.observe_all(values);
    }
}

impl Default for Challenger {
    fn default() -> (c: Self)
        ensures
            c.ready(),
            c.st() == fresh(),
    {
        Challenger::new()
    }
}

impl Sponge for Challenger {
    type St = Duplex;

    open spec fn st(&self) -> Duplex {
        self.duplex_state()
    }

    open spec fn machine() -> Machine<Duplex> {
        duplex()
    }

    open spec fn ready(&self) -> bool {
        self.inv()
    }

    fn observe(&mut self, value: u32) {
        Challenger::observe(self, value);
    }

    fn sample(&mut self) -> u32 {
        Challenger::sample(self)
    }
}

/// One transcript-bound sumcheck round: absorbs `c0 || c_inf` as eight base
/// elements, coefficient 0 first, permutes, and reads the challenge from the
/// first four rate slots. Returns the chained claim and the challenge.
pub fn sumcheck_round_fs(
    state: &mut [u32; 16],
    claim: [u32; 4],
    c0: [u32; 4],
    c_inf: [u32; 4],
) -> (out: ([u32; 4], [u32; 4]))
    ensures
        permutation::ints(final(state)@) == permuted(
            permutation::ints(old(state)@),
            permutation::ints(c0@ + c_inf@),
        ),
        out.1@ == final(state)@.take(4),
        ext4::quad(out.0@) == super::model::sumcheck_step(
            ext4::quad(claim@),
            ext4::quad(c0@),
            ext4::quad(c_inf@),
            ext4::quad(out.1@),
        ),
{
    let inputs: [u32; 8] = [
        c0[0],
        c0[1],
        c0[2],
        c0[3],
        c_inf[0],
        c_inf[1],
        c_inf[2],
        c_inf[3],
    ];
    assert(inputs@ =~= c0@ + c_inf@);
    duplexing(state, &inputs);
    let r = [state[0], state[1], state[2], state[3]];
    assert(r@ =~= state@.take(4));
    (super::arith::sumcheck_round(claim, c0, c_inf, r), r)
}

} // verus!

//! The verifier's transcript, emitted as a script by the transcript itself.
//!
//! [`Emitter`] is a [`Sponge`] that emits a script: driving the transcript
//! through it produces, in one pass, the script that runs that transcript on the
//! sponge state and the values it must draw.
//!
//! A duplex challenger buffers observed elements and permutes when eight are
//! pending or when a sample finds pending input or an empty output buffer;
//! samples then take the rate from the end. None of that needs bookkeeping at run
//! time: the schedule is fixed once the proof's shape is, so the emitter keeps
//! the two buffer counts itself and emits an absorption exactly where the sponge
//! would duplex, and reads exactly the rate slot the sponge would.
//!
//! The sixteen-element state sits on top of the main stack, with the pending
//! inputs (at most seven) above it. Observed values arrive from the alternative
//! stack, first consumed on top, and every sample is compared with the value the
//! sponge drew, also taken from there.
use super::reference;
use super::reference::{Challenges, TranscriptConfig, TranscriptData};
use super::schedule;
use super::script;
use super::script::{Machine, Op, Outcome};
use super::sponge;
use super::sponge::{Action, Challenger, Duplex, Sponge, RATE};
use crate::poseidon2::reference as permutation;
use vstd::prelude::*;

verus! {

/// What a sample leaves behind.
#[derive(Clone, Copy, Debug, PartialEq, Eq, Structural)]
pub enum Mode {
    /// Compare the sampled slot with the expected draw from the alternative stack
    /// and drop it. The script fails at the first challenge that differs.
    Check,
}

/// The sponge after the actions on the stream `t`, and whether every draw was the
/// one the stream expects.
pub open spec fn replayed(actions: Seq<Action>, t: Seq<int>) -> (Duplex, bool)
    decreases actions.len(),
{
    if actions.len() == 0 {
        (sponge::fresh(), true)
    } else {
        let n = actions.len() - 1;
        let (d, ok) = replayed(actions.drop_last(), t);
        match actions.last() {
            Action::Observe => (sponge::observed(d, t[n]), ok),
            Action::Sample => {
                let (e, v) = sponge::sampled(d);
                (e, ok && v == t[n])
            },
        }
    }
}

/// The stacks a script starts on: the zero state, and the stream with its first
/// element on top.
pub open spec fn start(t: Seq<int>) -> Machine {
    Machine { main: permutation::zeros(16), alt: Seq::new(t.len(), |i: int| t[t.len() - 1 - i]) }
}

/// How the script of the actions must end on the stream `t`.
pub open spec fn ending(actions: Seq<Action>, t: Seq<int>) -> Outcome {
    let (d, ok) = replayed(actions, t);
    if ok {
        Outcome::Running(Machine { main: d.state + d.input, alt: Seq::empty() })
    } else {
        Outcome::Rejected
    }
}

/// Only the part of the stream that was consumed matters.
proof fn lemma_replayed_prefix(actions: Seq<Action>, t: Seq<int>, u: Seq<int>)
    requires
        actions.len() <= t.len(),
        actions.len() <= u.len(),
        forall|i: int| 0 <= i < actions.len() ==> #[trigger] t[i] == u[i],
    ensures
        replayed(actions, t) == replayed(actions, u),
    decreases actions.len(),
{
    if actions.len() > 0 {
        lemma_replayed_prefix(actions.drop_last(), t, u);
        assert(t[actions.len() - 1] == u[actions.len() - 1]);
    }
}

/// When the sponge permutes and what it buffers depends on the actions alone.
pub proof fn law_schedule_ignores_values(actions: Seq<Action>, t: Seq<int>, u: Seq<int>)
    ensures
        sponge::wf(replayed(actions, t).0),
        replayed(actions, t).0.input.len() == replayed(actions, u).0.input.len(),
        replayed(actions, t).0.output.len() == replayed(actions, u).0.output.len(),
        replayed(actions, t).0.permutations == replayed(actions, u).0.permutations,
    decreases actions.len(),
{
    if actions.len() == 0 {
        assert(Seq::<int>::empty() =~= permutation::zeros(16).take(0));
    } else {
        let n = actions.len() - 1;
        law_schedule_ignores_values(actions.drop_last(), t, u);
        law_schedule_ignores_values(actions.drop_last(), u, t);
        let d = replayed(actions.drop_last(), t).0;
        let e = replayed(actions.drop_last(), u).0;
        sponge::lemma_observed(d, t[n]);
        sponge::lemma_sampled(d);
        permutation::lemma_permutation(sponge::loaded(d.state, d.input));
        permutation::lemma_permutation(sponge::loaded(e.state, e.input));
        permutation::lemma_permutation(sponge::loaded(d.state, d.input.push(t[n])));
        permutation::lemma_permutation(sponge::loaded(e.state, e.input.push(u[n])));
    }
}

/// The script so far and the challenger it follows.
pub struct Program {
    challenger: Challenger,
    /// Observed elements not yet absorbed, at most `RATE - 1` between steps.
    pending: usize,
    /// Rate slots of the last permutation still unread, read from the end.
    available: usize,
    mode: Mode,
    parts: Vec<Op>,
    actions: Ghost<Seq<Action>>,
}

/// A sponge that emits a script and tracks the challenger in lockstep.
pub struct Emitter {
    pub program: Program,
    /// Everything read from the alternative stack, in consumption order.
    pub stream: Vec<u32>,
    /// Permutations emitted.
    pub permutations: usize,
}

/// The next element of the stream, below those already there.
proof fn lemma_start_push(t: Seq<int>, x: int)
    ensures
        start(t.push(x)) == script::on_top(Seq::empty(), seq![x], start(t)),
{
    let s = start(t.push(x));
    let f = script::on_top(Seq::empty(), seq![x], start(t));
    assert(s.main =~= f.main);
    assert(s.alt =~= f.alt);
}

impl Emitter {
    /// The script so far.
    pub closed spec fn ops(&self) -> Seq<Op> {
        self.program.parts@
    }

    /// The field [`Emitter::stream`] as integers.
    pub open spec fn consumed(&self) -> Seq<int> {
        permutation::ints(self.stream@)
    }

    /// The field [`Emitter::permutations`].
    pub open spec fn permuted(&self) -> nat {
        self.permutations as nat
    }

    /// The transcript's steps so far.
    pub closed spec fn steps(&self) -> Seq<Action> {
        self.program.actions@
    }

    /// The buffer counts follow the challenger and the script does what the
    /// transcript's steps do, on every stream.
    pub closed spec fn inv(&self) -> bool {
        let t = permutation::ints(self.stream@);
        let d = self.program.challenger.st();
        &&& self.program.challenger.ready()
        &&& self.program.actions@.len() == self.stream@.len()
        &&& replayed(self.program.actions@, t) == (d, true)
        &&& t == d.log
        &&& self.program.pending == d.input.len()
        &&& self.program.available == d.output.len()
        &&& self.permutations == d.permutations
        &&& self.permutations <= self.program.parts@.len()
        &&& forall|u: Seq<int>|
            u.len() == self.program.actions@.len() ==> #[trigger] script::run(
                self.program.parts@,
                start(u),
            ) == ending(self.program.actions@, u)
    }

    pub fn new(mode: Mode) -> (e: Self)
        ensures
            e.ready(),
            e.st() == sponge::fresh(),
            e.permuted() == 0,
            e.consumed().len() == 0,
            e.steps().len() == 0,
    {
        let e = Emitter {
            program: Program {
                challenger: Challenger::new(),
                pending: 0,
                available: 0,
                mode,
                parts: Vec::new(),
                actions: Ghost(Seq::empty()),
            },
            stream: Vec::new(),
            permutations: 0,
        };
        proof {
            assert(permutation::ints(e.stream@) =~= Seq::<int>::empty());
            assert forall|u: Seq<int>| u.len() == 0 implies #[trigger] script::run(
                e.program.parts@,
                start(u),
            ) == ending(e.program.actions@, u) by {
                assert(permutation::zeros(16) + Seq::<int>::empty() =~= permutation::zeros(16));
                assert(start(u).alt =~= Seq::<int>::empty());
            }
        }
        e
    }

    /// The script runs the transcript on every stream: it ends on the sponge's
    /// state where the stream's draws are the sponge's, and fails where one is
    /// not.
    pub proof fn law_script(&self, u: Seq<int>)
        requires
            self.ready(),
            u.len() == self.consumed().len(),
        ensures
            script::run(self.ops(), start(u)) == ending(self.steps(), u),
            self.steps().len() == self.consumed().len(),
    {
    }

    /// On the emitter's own stream, everything observed and sampled in the order of
    /// the calls, the script ends on the challenger's state.
    pub proof fn law_own_stream(&self)
        requires
            self.ready(),
        ensures
            script::run(self.ops(), start(self.consumed())) == Outcome::Running(
                Machine { main: self.st().state + self.st().input, alt: Seq::empty() },
            ),
            self.permuted() == self.st().permutations,
            self.consumed() == self.st().log,
    {
        let t = permutation::ints(self.stream@);
        assert(script::run(self.program.parts@, start(t)) == ending(self.program.actions@, t));
    }

    /// The emitted script.
    pub fn script(&self) -> (ops: Vec<Op>)
        ensures
            ops@ == self.ops(),
    {
        let mut ops: Vec<Op> = Vec::new();
        let mut i: usize = 0;
        while i < self.program.parts.len()
            invariant
                i <= self.program.parts@.len(),
                ops@ == self.program.parts@.take(i as int),
            decreases self.program.parts@.len() - i,
        {
            ops.push(self.program.parts[i]);
            assert(self.program.parts@.take(i + 1) =~= self.program.parts@.take(i as int).push(
                self.program.parts@[i as int],
            ));
            i = i + 1;
        }
        assert(self.program.parts@.take(i as int) =~= self.program.parts@);
        ops
    }

    /// The challenger's state, which the script's state must equal.
    pub fn state(&self) -> (s: [u32; 16])
        ensures
            permutation::ints(s@) == self.st().state,
    {
        self.program.challenger.state()
    }

    /// The stream extended.
    proof fn lemma_stream(&self, x: u32, a: Action)
        requires
            self.inv(),
        ensures
            ({
                let t = permutation::ints(self.stream@.push(x));
                replayed(self.program.actions@.push(a).drop_last(), t) == (
                    self.program.challenger.st(),
                    true,
                )
            }),
    {
        let t = permutation::ints(self.stream@.push(x));
        let u = permutation::ints(self.stream@);
        assert(self.program.actions@.push(a).drop_last() =~= self.program.actions@);
        assert forall|i: int|
            0 <= i < self.program.actions@.len() implies #[trigger] t[i] == u[i] by {}
        lemma_replayed_prefix(self.program.actions@, t, u);
    }
}

/// A script run one step of the stream further.
proof fn lemma_reads_on(ops: Seq<Op>, actions: Seq<Action>, u: Seq<int>)
    requires
        u.len() == actions.len() + 1,
        script::run(ops, start(u.drop_last())) == ending(actions, u.drop_last()),
    ensures
        ({
            let (d, ok) = replayed(actions, u);
            script::run(ops, start(u)) == (if ok {
                Outcome::Running(Machine { main: d.state + d.input, alt: seq![u.last()] })
            } else {
                Outcome::Rejected
            })
        }),
        sponge::wf(replayed(actions, u).0),
{
    let v = u.drop_last();
    let x = u.last();
    assert(u =~= v.push(x));
    lemma_start_push(v, x);
    lemma_replayed_prefix(actions, u, v);
    law_schedule_ignores_values(actions, u, u);
    script::law_frame(ops, Seq::empty(), seq![x], start(v));
    let (d, ok) = replayed(actions, u);
    if ok {
        let e = Machine { main: d.state + d.input, alt: Seq::empty() };
        assert(script::on_top(Seq::empty(), seq![x], e) =~= (Machine {
            main: d.state + d.input,
            alt: seq![x],
        }));
    }
}

/// The script after an absorption.
proof fn lemma_absorbs(ops: Seq<Op>, m: Machine, d: Duplex, alt: Seq<int>)
    requires
        d.state.len() == 16,
        d.input.len() <= 8,
        script::run(ops, m) == Outcome::Running(Machine { main: d.state + d.input, alt }),
    ensures
        script::run(ops.push(Op::Absorb(d.input.len() as usize)), m) == Outcome::Running(
            Machine { main: sponge::duplexed(d).state, alt },
        ),
{
    let op = Op::Absorb(d.input.len() as usize);
    let none = Seq::<int>::empty();
    let s = d.state + d.input;
    script::lemma_run_push(ops, op, m);
    assert(none + s =~= s);
    assert(alt + none =~= alt);
    reveal(script::effect);
    script::lemma_step(op, none, s, alt, none);
    assert(s.take(16) =~= d.state);
    assert(s.skip(16) =~= d.input);
    let t = sponge::permuted(d.state, d.input);
    assert(none + t =~= t);
}

/// The script after a comparison of a slot with the stream.
proof fn lemma_compares(ops: Seq<Op>, m: Machine, state: Seq<int>, slot: usize, x: int)
    requires
        state.len() == 16,
        slot < 16,
        script::run(ops, m) == Outcome::Running(Machine { main: state, alt: seq![x] }),
    ensures
        script::run(
            ops.push(Op::Sample(slot)).push(Op::FromAlt).push(Op::EqualVerify),
            m,
        ) == (if state[slot as int] == x {
            Outcome::Running(Machine { main: state, alt: Seq::empty() })
        } else {
            Outcome::Rejected
        }),
{
    let v = state[slot as int];
    let o1 = ops.push(Op::Sample(slot));
    let o2 = o1.push(Op::FromAlt);
    let none = Seq::<int>::empty();
    script::lemma_run_push(ops, Op::Sample(slot), m);
    script::lemma_run_push(o1, Op::FromAlt, m);
    script::lemma_run_push(o2, Op::EqualVerify, m);
    assert(none + state =~= state);
    assert(seq![x] + none =~= seq![x]);
    reveal(script::effect);
    script::lemma_step(Op::Sample(slot), none, state, seq![x], none);
    assert(none + state.push(v) =~= state.push(v));
    assert(state.push(v) + none =~= state.push(v));
    assert(none + seq![x] =~= seq![x]);
    script::lemma_step(Op::FromAlt, state.push(v), none, none, seq![x]);
    assert(none + none =~= none);
    assert(state.push(v) + seq![x] =~= state + seq![v, x]);
    script::lemma_step(Op::EqualVerify, state, seq![v, x], none, none);
    assert(state + none =~= state);
}

/// The operations an observation adds with `pending` inputs before it.
pub open spec fn observing(ops: Seq<Op>, pending: nat) -> Seq<Op> {
    if pending + 1 == RATE {
        ops.push(Op::FromAlt).push(Op::Absorb(RATE))
    } else {
        ops.push(Op::FromAlt)
    }
}

/// The operations that make a rate element readable.
pub open spec fn priming(ops: Seq<Op>, pending: nat, available: nat) -> Seq<Op> {
    if pending > 0 || available == 0 {
        ops.push(Op::Absorb(pending as usize))
    } else {
        ops
    }
}

/// The operations a checked sample adds.
pub open spec fn sampling(ops: Seq<Op>, pending: nat, available: nat) -> Seq<Op> {
    let left = if pending > 0 || available == 0 {
        RATE as nat
    } else {
        available
    };
    priming(ops, pending, available).push(Op::Sample((left - 1) as usize)).push(
        Op::FromAlt,
    ).push(Op::EqualVerify)
}

/// An observation keeps the script in step.
proof fn lemma_observing(ops: Seq<Op>, acts: Seq<Action>, u: Seq<int>)
    requires
        u.len() == acts.len() + 1,
        script::run(ops, start(u.drop_last())) == ending(acts, u.drop_last()),
    ensures
        script::run(observing(ops, replayed(acts, u).0.input.len()), start(u)) == ending(
            acts.push(Action::Observe),
            u,
        ),
{
    let now = acts.push(Action::Observe);
    assert(now.drop_last() =~= acts);
    lemma_reads_on(ops, acts, u);
    let (e, ok) = replayed(acts, u);
    let loaded = ops.push(Op::FromAlt);
    script::lemma_run_push(ops, Op::FromAlt, start(u));
    script::lemma_run_push(loaded, Op::Absorb(RATE), start(u));
    let x = u.last();
    let full = e.input.len() + 1 == RATE;
    if ok {
        let s = e.state + e.input;
        let none = Seq::<int>::empty();
        assert(s + none =~= s);
        assert(none + seq![x] =~= seq![x]);
        reveal(script::effect);
        script::lemma_step(Op::FromAlt, s, none, none, seq![x]);
        assert(none + none =~= none);
        let f = Duplex {
            input: e.input.push(x),
            output: Seq::empty(),
            seen: e.seen.push(x),
            log: e.log.push(x),
            calls: e.calls.push(Action::Observe),
            ..e
        };
        assert(s + seq![x] =~= f.state + f.input);
        assert(script::run(loaded, start(u)) == Outcome::Running(
            Machine { main: f.state + f.input, alt: none },
        ));
        if full {
            lemma_absorbs(loaded, start(u), f, none);
            let g = sponge::duplexed(f);
            assert(g.state + g.input =~= g.state);
        }
    }
}

/// A checked sample keeps the script in step.
proof fn lemma_sampling(ops: Seq<Op>, acts: Seq<Action>, u: Seq<int>)
    requires
        u.len() == acts.len() + 1,
        script::run(ops, start(u.drop_last())) == ending(acts, u.drop_last()),
    ensures
        script::run(
            sampling(
                ops,
                replayed(acts, u).0.input.len(),
                replayed(acts, u).0.output.len(),
            ),
            start(u),
        ) == ending(acts.push(Action::Sample), u),
{
    let now = acts.push(Action::Sample);
    assert(now.drop_last() =~= acts);
    lemma_reads_on(ops, acts, u);
    let (e, ok) = replayed(acts, u);
    let x = u.last();
    let refill = e.input.len() > 0 || e.output.len() == 0;
    let primed = priming(ops, e.input.len(), e.output.len());
    let left = if refill {
        RATE as nat
    } else {
        e.output.len()
    };
    let slot = (left - 1) as usize;
    let o1 = primed.push(Op::Sample(slot));
    let o2 = o1.push(Op::FromAlt);
    let p = sponge::primed(e);
    permutation::lemma_permutation(sponge::loaded(e.state, e.input));
    assert(p.output == p.state.take(p.output.len() as int));
    assert(p.output.len() == left);
    if ok {
        if refill {
            lemma_absorbs(ops, start(u), e, seq![x]);
        } else {
            assert(e.state + e.input =~= e.state);
        }
        lemma_compares(primed, start(u), p.state, slot, x);
        let f = sponge::sampled(e).0;
        assert(f.state + f.input =~= p.state);
        assert(p.output.last() == p.state[slot as int]);
    } else {
        script::lemma_run_push(primed, Op::Sample(slot), start(u));
        script::lemma_run_push(o1, Op::FromAlt, start(u));
        script::lemma_run_push(o2, Op::EqualVerify, start(u));
        script::lemma_run_push(ops, Op::Absorb(e.input.len() as usize), start(u));
    }
}

impl Sponge for Emitter {
    type St = Duplex;

    closed spec fn st(&self) -> Duplex {
        self.program.challenger.st()
    }

    open spec fn machine() -> schedule::Machine<Duplex> {
        sponge::duplex()
    }

    open spec fn ready(&self) -> bool {
        self.inv()
    }

    /// Buffers, and duplexes at a full rate.
    fn observe(&mut self, value: u32)
        ensures
            final(self).stream@ == old(self).stream@.push(value),
            final(self).steps() == old(self).steps().push(Action::Observe),
            final(self).permutations == final(self).st().permutations,
    {
        let ghost before = *self;
        let ghost d = self.program.challenger.st();
        proof {
            self.program.challenger.lemma_ready();
            self.lemma_stream(value, Action::Observe);
        }
        self.program.challenger.observe(value);
        self.stream.push(value);
        self.program.actions = Ghost(self.program.actions@.push(Action::Observe));
        self.program.parts.push(Op::FromAlt);
        self.program.available = 0;
        self.program.pending = self.program.pending + 1;
        if self.program.pending == RATE {
            self.program.parts.push(Op::Absorb(self.program.pending));
            assert(self.program.parts.len() == self.program.parts@.len());
            self.permutations = self.permutations + 1;
            self.program.pending = 0;
            self.program.available = RATE;
        }
        proof {
            let acts = before.program.actions@;
            let now = self.program.actions@;
            let t = permutation::ints(self.stream@);
            assert(t =~= permutation::ints(before.stream@).push(value as int));
            assert(now.drop_last() =~= acts);
            assert(t[acts.len() as int] == value as int);
            law_schedule_ignores_values(acts, t, t);
            permutation::lemma_permutation(sponge::loaded(d.state, d.input.push(value as int)));
            assert(self.program.parts@ == observing(before.program.parts@, d.input.len()));
            assert forall|u: Seq<int>| u.len() == now.len() implies #[trigger] script::run(
                self.program.parts@,
                start(u),
            ) == ending(now, u) by {
                let v = u.drop_last();
                assert(script::run(before.program.parts@, start(v)) == ending(acts, v));
                law_schedule_ignores_values(acts, u, t);
                lemma_observing(before.program.parts@, acts, u);
            }
        }
    }

    /// Duplexes if anything is pending or nothing is left to read, then takes the
    /// highest unread rate slot.
    fn sample(&mut self) -> (v: u32)
        ensures
            final(self).stream@ == old(self).stream@.push(v),
            final(self).steps() == old(self).steps().push(Action::Sample),
            final(self).permutations == final(self).st().permutations,
    {
        let ghost before = *self;
        let ghost d = self.program.challenger.st();
        proof {
            self.program.challenger.lemma_ready();
            permutation::lemma_permutation(sponge::loaded(d.state, d.input));
        }
        let value = self.program.challenger.sample();
        proof {
            before.lemma_stream(value, Action::Sample);
        }
        if self.program.pending > 0 || self.program.available == 0 {
            self.program.parts.push(Op::Absorb(self.program.pending));
            assert(self.program.parts.len() == self.program.parts@.len());
            self.permutations = self.permutations + 1;
            self.program.pending = 0;
            self.program.available = RATE;
        }
        self.program.available = self.program.available - 1;
        let slot = self.program.available;
        match self.program.mode {
            Mode::Check => {
                self.stream.push(value);
                self.program.actions = Ghost(self.program.actions@.push(Action::Sample));
                self.program.parts.push(Op::Sample(slot));
                self.program.parts.push(Op::FromAlt);
                self.program.parts.push(Op::EqualVerify);
            },
        }
        proof {
            let acts = before.program.actions@;
            let now = self.program.actions@;
            let t = permutation::ints(self.stream@);
            assert(t =~= permutation::ints(before.stream@).push(value as int));
            assert(now.drop_last() =~= acts);
            assert(t[acts.len() as int] == value as int);
            assert(self.program.parts@ == sampling(
                before.program.parts@,
                d.input.len(),
                d.output.len(),
            ));
            assert forall|u: Seq<int>| u.len() == now.len() implies #[trigger] script::run(
                self.program.parts@,
                start(u),
            ) == ending(now, u) by {
                let v = u.drop_last();
                assert(script::run(before.program.parts@, start(v)) == ending(acts, v));
                law_schedule_ignores_values(acts, u, t);
                lemma_sampling(before.program.parts@, acts, u);
            }
        }
        value
    }
}

/// The transcript as a script, with what it draws and the stream it consumes.
///
/// The script runs on the sixteen-element zero state with the stream on the
/// alternative stack, first element on top, and ends on the state the sponge ends
/// in.
pub fn transcript(cfg: &TranscriptConfig, data: &TranscriptData, mode: Mode) -> (r: (
    Emitter,
    Challenges,
))
    requires
        reference::fits(*cfg, *data),
        !reference::run(*cfg, *data, sponge::fresh()).0.stuck,
    ensures
        r.0.ready(),
        r.0.st() == reference::run(*cfg, *data, sponge::fresh()).0,
        r.1.are(reference::run(*cfg, *data, sponge::fresh()).1),
        permutation::ints(r.0.stream@) == reference::run(*cfg, *data, sponge::fresh()).0.log,
        r.0.permutations == reference::run(*cfg, *data, sponge::fresh()).0.permutations,
{
    let mut emitter = Emitter::new(mode);
    proof {
        emitter.program.challenger.lemma_ready();
        reference::law_duplex_run(*cfg, *data, sponge::fresh());
    }
    let challenges = reference::transcript(cfg, data, &mut emitter);
    (emitter, challenges)
}

} // verus!

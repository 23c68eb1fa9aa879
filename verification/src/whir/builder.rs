//! The verifier script's builder: the stack it keeps and the pieces it emits.
//!
//! Above the proof's data a *kept* region grows: every challenge the sponge draws
//! is buried there as it is drawn, and every value the arithmetic wants back
//! later is left there as it is computed. During the transcript the sponge state
//! sits on the kept region with its pending inputs above; afterwards short-lived
//! temporaries do.
use super::schedule::Machine;
use super::script;
use super::script::{Census, Op};
use super::sponge;
use super::sponge::{Action, Challenger, Duplex, Sponge, RATE};
use super::symbols;
use super::symbols::{both, constant, quad_at, spread, Sym, Val};
use super::tape::Tape;
use crate::poseidon2::constants::WIDTH;
use crate::poseidon2::ext4;
use crate::poseidon2::field;
use crate::poseidon2::reference as permutation;
use vstd::prelude::*;

verus! {

/// Slots of an extension element.
pub const COMPARE_EF: usize = 4;

/// One extension element on the stack.
pub open spec fn sp(q: Sym) -> Seq<Val> {
    spread(seq![q])
}

pub struct Builder {
    pub challenger: Challenger,
    pub pending: usize,
    pub available: usize,
    pub tape: Tape,
    /// Every sample the sponge drew, in order; one kept entry each.
    pub samples: Vec<u32>,
    /// Slots in the kept region.
    pub kept: u128,
    pub state: bool,
    /// Slots above the kept region (and the state, while present).
    pub temps: u128,
    pub permutations: usize,
}

broadcast use {
    symbols::lemma_spread_len,
    symbols::lemma_alt_spread_len,
    script::lemma_census_push,
};

/// Two extension elements on a stack.
pub proof fn lemma_two(u: Seq<Val>, x: Sym, y: Sym)
    ensures
        (u + sp(x)) + sp(y) == u + spread(seq![x, y]),
        spread(seq![x, y]).len() == 8,
        quad_at(spread(seq![x, y]), 0) == x,
        quad_at(spread(seq![x, y]), 4) == y,
{
    let none = Seq::<Val>::empty();
    symbols::lemma_spread_push(seq![x], y);
    assert(seq![x].push(y) =~= seq![x, y]);
    assert((u + sp(x)) + sp(y) =~= u + (sp(x) + sp(y)));
    let both = seq![x, y];
    symbols::lemma_read(none, both, 0);
    symbols::lemma_read(none, both, 1);
    assert(none + spread(both) =~= spread(both));
}

/// An extension element on a stack.
pub proof fn lemma_one(q: Sym)
    ensures
        sp(q).len() == 4,
        sp(q) == seq![q.a, q.b, q.c, q.d],
        quad_at(sp(q), 0) == q,
{
    symbols::lemma_slot(seq![q], 0, 0);
    symbols::lemma_slot(seq![q], 0, 1);
    symbols::lemma_slot(seq![q], 0, 2);
    symbols::lemma_slot(seq![q], 0, 3);
    assert(sp(q) =~= seq![q.a, q.b, q.c, q.d]);
}

/// Four slots are an extension element.
pub proof fn lemma_slots(s: Seq<Val>, i: int)
    requires
        0 <= i,
        i + 4 <= s.len(),
    ensures
        s.subrange(i, i + 4) == sp(quad_at(s, i)),
{
    lemma_one(quad_at(s, i));
    assert(s.subrange(i, i + 4) =~= sp(quad_at(s, i)));
}

impl Builder {
    /// The elements of the data.
    pub open spec fn stream(&self) -> Seq<Val> {
        symbols::data(self.tape.data@.len())
    }

    /// The data the script is built for.
    pub open spec fn words(&self) -> Seq<int> {
        permutation::ints(self.tape.data@)
    }

    /// The transcript is running: the kept region holds what the sponge drew, the
    /// data what it observed, and the state lies on top with its pending inputs.
    pub open spec fn running(&self) -> bool {
        let d = self.challenger.st();
        &&& self.challenger.ready()
        &&& sponge::wf(d)
        &&& sponge::traced(d)
        &&& self.tape.sound()
        &&& self.tape.ok@ == symbols::always()
        &&& self.tape.alt@ == Seq::<Val>::empty()
        &&& self.tape.work@ == (symbols::drawn(d.calls, d.drawn.len()) + symbols::state(d.calls))
            + symbols::pending(d.calls, d.input.len())
        &&& self.words() == d.seen
        &&& permutation::ints(self.samples@) == d.drawn
        &&& self.pending == d.input.len()
        &&& self.available == d.output.len()
        &&& self.kept == self.samples@.len()
        &&& self.state
        &&& self.temps == 0
        &&& self.permutations == d.permutations
        &&& self.permutations <= self.tape.ops@.len()
        &&& self.census() == (Census {
            absorbs: d.permutations,
            samples: d.drawn.len(),
            hashes: 0,
            walks: 0,
            sumchecks: 0,
        })
    }

    /// The same data and samples, no requirement failed in between, and so much
    /// more work in the program.
    pub open spec fn more(&self, o: &Builder, c: Census) -> bool {
        &&& self.tape.data@ == o.tape.data@
        &&& self.samples@ == o.samples@
        &&& self.tape.ok@ == o.tape.ok@
        &&& self.census() == script::together(o.census(), c)
    }

    /// The steps of the program so far.
    pub open spec fn census(&self) -> Census {
        script::census(self.tape.ops@)
    }

    /// The transcript is over: the kept region, the temporaries and the
    /// alternative stack.
    pub open spec fn holds(&self, k: Seq<Val>, t: Seq<Val>, a: Seq<Val>) -> bool {
        &&& self.tape.sound()
        &&& self.tape.work@ == k + t
        &&& self.tape.alt@ == a
        &&& self.kept == k.len()
        &&& self.temps == t.len()
        &&& !self.state
    }

    /// The same data and samples, and no requirement failed in between.
    pub open spec fn same(&self, o: &Builder) -> bool {
        &&& self.tape.data@ == o.tape.data@
        &&& self.samples@ == o.samples@
        &&& self.tape.ok@ == o.tape.ok@
        &&& self.census() == o.census()
    }

    /// A builder over the zero state.
    pub(crate) fn new() -> (b: Self)
        ensures
            b.running(),
            b.challenger.st() == sponge::fresh(),
    {
        let mut b = Builder {
            challenger: Challenger::new(),
            pending: 0,
            available: 0,
            tape: Tape::new(),
            samples: Vec::new(),
            kept: 0,
            state: true,
            temps: 0,
            permutations: 0,
        };
        let mut i: usize = 0;
        let ghost zero = |n: nat| Seq::new(n, |i: int| constant(0));
        assert(b.tape.work@ =~= zero(0));
        while i < WIDTH
            invariant
                i <= WIDTH,
                b.tape.sound(),
                b.tape.ok@ == symbols::always(),
                b.tape.alt@ == Seq::<Val>::empty(),
                b.tape.data@ == Seq::<u32>::empty(),
                zero == (|n: nat| Seq::new(n, |i: int| constant(0))),
                b.tape.work@ == zero(i as nat),
                b.challenger.ready(),
                b.challenger.st() == sponge::fresh(),
                b.samples@ == Seq::<u32>::empty(),
                b.pending == 0,
                b.available == 0,
                b.kept == 0,
                b.state,
                b.temps == 0,
                b.permutations == 0,
                b.census() == script::census(Seq::empty()),
            decreases WIDTH - i,
        {
            b.tape.push(0);
            i = i + 1;
            assert(b.tape.work@ =~= zero(i as nat));
        }
        proof {
            let d = sponge::fresh();
            reveal(script::census);
            let state = symbols::state(d.calls);
            assert forall|i: int| 0 <= i < 16 implies state[i] == constant(0) by {
                assert(state[i] =~= constant(0));
            }
            assert(b.tape.work@ =~= (symbols::drawn(d.calls, 0) + state) + symbols::pending(
                d.calls,
                0,
            ));
            assert(permutation::ints(b.tape.data@) =~= d.seen);
            assert(permutation::ints(b.samples@) =~= d.drawn);
            b.challenger.lemma_ready();
        }
        b
    }

    /// Slots above the kept region.
    fn above(&self) -> (r: u128)
        requires
            self.temps <= 0x1_0000_0000_0000_0000_0000,
        ensures
            r == (if self.state {
                WIDTH + self.pending
            } else {
                0
            }) + self.temps,
    {
        if self.state {
            16 + self.pending as u128 + self.temps
        } else {
            self.temps
        }
    }

    /// Absorbs the pending inputs and permutes the state.
    fn duplex(
        &mut self,
        Ghost(below): Ghost<Seq<Val>>,
        Ghost(state): Ghost<Seq<Val>>,
        Ghost(input): Ghost<Seq<Val>>,
    )
        requires
            old(self).tape.sound(),
            old(self).tape.work@ == (below + state) + input,
            state.len() == 16,
            old(self).pending == input.len(),
            old(self).permutations <= old(self).tape.ops@.len(),
        ensures
            final(self).tape.sound(),
            final(self).tape.work@ == below + symbols::permuted(state, input),
            final(self).tape.alt@ == old(self).tape.alt@,
            final(self).tape.data@ == old(self).tape.data@,
            final(self).tape.ok@ == old(self).tape.ok@,
            final(self).pending == 0,
            final(self).available == RATE,
            final(self).permutations == old(self).permutations + 1,
            final(self).permutations <= final(self).tape.ops@.len(),
            final(self).challenger == old(self).challenger,
            final(self).samples == old(self).samples,
            final(self).kept == old(self).kept,
            final(self).state == old(self).state,
            final(self).temps == old(self).temps,
            final(self).census() == script::together(
                old(self).census(),
                script::tally(Op::Absorb(0)),
            ),
    {
        let k = self.pending;
        let ghost t = state + input;
        let ghost r = symbols::permuted(state, input);
        proof {
            assert((below + state) + input =~= below + t);
            symbols::effect_absorb(k, state, input);
        }
        self.tape.plain(Op::Absorb(k), Ghost(below), Ghost(t), Ghost(r));
        assert(self.tape.ops.len() == self.tape.ops@.len());
        self.permutations = self.permutations + 1;
        self.pending = 0;
        self.available = RATE;
    }

    /// Drops the state once the transcript has ended on a draw.
    pub(crate) fn end_transcript(&mut self)
        requires
            old(self).running(),
            old(self).challenger.st().input.len() == 0,
        ensures
            final(self).holds(
                symbols::drawn(
                    old(self).challenger.st().calls,
                    old(self).challenger.st().drawn.len(),
                ),
                Seq::empty(),
                Seq::empty(),
            ),
            final(self).same(old(self)),
            final(self).permutations == old(self).permutations,
    {
        let ghost d = self.challenger.st();
        let ghost below = symbols::drawn(d.calls, d.drawn.len());
        let ghost state = symbols::state(d.calls);
        let mut i: usize = 0;
        proof {
            assert(self.tape.work@ =~= below + state);
            assert(state.take(16) =~= state);
        }
        while i < WIDTH / 2
            invariant
                i <= 8,
                state.len() == 16,
                self.tape.sound(),
                self.tape.work@ == below + state.take(16 - 2 * i),
                self.tape.alt@ == Seq::<Val>::empty(),
                self.same(old(self)),
                self.permutations == old(self).permutations,
                self.kept == below.len(),
                self.temps == 0,
            decreases 8 - i,
        {
            self.tape.two_drop();
            i = i + 1;
            assert(self.tape.work@ =~= below + state.take(16 - 2 * i));
        }
        self.state = false;
        assert(self.tape.work@ =~= below + Seq::<Val>::empty());
    }

    // -- stack movement, after the transcript ---------------------------------

    /// Copies data elements `i..i+n` to the top, element `i` deepest.
    pub(crate) fn push_data(
        &mut self,
        i: u128,
        n: u128,
        Ghost(k): Ghost<Seq<Val>>,
        Ghost(t): Ghost<Seq<Val>>,
        Ghost(a): Ghost<Seq<Val>>,
    )
        requires
            old(self).holds(k, t, a),
            i + n <= old(self).tape.data@.len(),
        ensures
            final(self).holds(k, t + old(self).stream().subrange(i as int, i + n), a),
            final(self).same(old(self)),
    {
        let ghost s = self.stream();
        assert(self.tape.data.len() == self.tape.data@.len());
        assert(self.tape.ops.len() == self.tape.ops@.len());
        let base: u128 = i + self.kept + self.temps;
        let mut j: u128 = 0;
        assert(t + s.subrange(i as int, i as int) =~= t);
        while j < n
            invariant
                j <= n,
                self.holds(k, t + s.subrange(i as int, i + j), a),
                self.same(old(self)),
                i + n <= self.tape.data@.len(),
                s == self.stream(),
                base == i + k.len() + t.len(),
            decreases n - j,
        {
            assert(self.tape.data.len() == self.tape.data@.len());
            assert(self.tape.ops.len() == self.tape.ops@.len());
            self.tape.read(i + j, base + 2 * j);
            assert(self.tape.ops.len() == self.tape.ops@.len());
            self.temps = self.temps + 1;
            j = j + 1;
            assert(self.tape.work@ =~= k + (t + s.subrange(i as int, i + j)));
        }
    }

    /// Copies kept entries `e..e+n` to the top, entry `e` deepest.
    pub(crate) fn push_kept(
        &mut self,
        e: u128,
        n: u128,
        Ghost(k): Ghost<Seq<Val>>,
        Ghost(t): Ghost<Seq<Val>>,
        Ghost(a): Ghost<Seq<Val>>,
    )
        requires
            old(self).holds(k, t, a),
            n > 0,
            e + n <= k.len(),
        ensures
            final(self).holds(k, t + k.subrange(e as int, e + n), a),
            final(self).same(old(self)),
    {
        assert(self.tape.ops.len() == self.tape.ops@.len());
        let d: u128 = self.kept - 1 - e + self.temps;
        let mut j: u128 = 0;
        assert(t + k.subrange(e as int, e as int) =~= t);
        while j < n
            invariant
                j <= n,
                self.holds(k, t + k.subrange(e as int, e + j), a),
                self.same(old(self)),
                e + n <= k.len(),
                d == k.len() - 1 - e + t.len(),
            decreases n - j,
        {
            self.tape.copy(d);
            assert(self.tape.ops.len() == self.tape.ops@.len());
            self.temps = self.temps + 1;
            j = j + 1;
            assert(self.tape.work@ =~= k + (t + k.subrange(e as int, e + j)));
        }
    }

    /// Copies an extension element of the data to the top.
    pub(crate) fn push_data_ef(
        &mut self,
        i: u128,
        Ghost(k): Ghost<Seq<Val>>,
        Ghost(t): Ghost<Seq<Val>>,
        Ghost(a): Ghost<Seq<Val>>,
    )
        requires
            old(self).holds(k, t, a),
            i + 4 <= old(self).tape.data@.len(),
        ensures
            final(self).holds(k, t + sp(quad_at(old(self).stream(), i as int)), a),
            final(self).same(old(self)),
    {
        proof {
            lemma_slots(self.stream(), i as int);
        }
        self.push_data(i, 4, Ghost(k), Ghost(t), Ghost(a));
    }

    /// Copies a kept extension element to the top.
    pub(crate) fn push_kept_ef(
        &mut self,
        e: u128,
        Ghost(k): Ghost<Seq<Val>>,
        Ghost(t): Ghost<Seq<Val>>,
        Ghost(a): Ghost<Seq<Val>>,
    )
        requires
            old(self).holds(k, t, a),
            e + 4 <= k.len(),
        ensures
            final(self).holds(k, t + sp(quad_at(k, e as int)), a),
            final(self).same(old(self)),
    {
        proof {
            lemma_slots(k, e as int);
        }
        self.push_kept(e, 4, Ghost(k), Ghost(t), Ghost(a));
    }

    /// Adopts the temporaries into the kept region; returns the entry of the
    /// deepest of them.
    pub(crate) fn bury(
        &mut self,
        n: u128,
        Ghost(k): Ghost<Seq<Val>>,
        Ghost(t): Ghost<Seq<Val>>,
        Ghost(a): Ghost<Seq<Val>>,
    ) -> (e: u128)
        requires
            old(self).holds(k, t, a),
            n == t.len(),
        ensures
            final(self).holds(k + t, Seq::empty(), a),
            final(self).same(old(self)),
            e == k.len(),
    {
        assert(self.tape.ops.len() == self.tape.ops@.len());
        let e = self.kept;
        self.temps = self.temps - n;
        self.kept = self.kept + n;
        assert(k + t =~= (k + t) + Seq::<Val>::empty());
        e
    }

    /// Drops the top `n` temporaries.
    pub(crate) fn drop(
        &mut self,
        n: u128,
        Ghost(k): Ghost<Seq<Val>>,
        Ghost(t): Ghost<Seq<Val>>,
        Ghost(u): Ghost<Seq<Val>>,
        Ghost(a): Ghost<Seq<Val>>,
    )
        requires
            old(self).holds(k, t + u, a),
            n == u.len(),
        ensures
            final(self).holds(k, t, a),
            final(self).same(old(self)),
    {
        let mut j: u128 = 0;
        assert(t + u.take(n as int) =~= t + u);
        while j < n / 2
            invariant
                j <= n / 2,
                n == u.len(),
                self.tape.sound(),
                self.tape.work@ == k + (t + u.take(n - 2 * j)),
                self.tape.alt@ == a,
                self.same(old(self)),
                self.kept == k.len(),
                self.temps == t.len() + n,
                !self.state,
            decreases n / 2 - j,
        {
            self.tape.two_drop();
            j = j + 1;
            assert(self.tape.work@ =~= k + (t + u.take(n - 2 * j)));
        }
        if n % 2 == 1 {
            self.tape.drop_one();
        }
        self.temps = self.temps - n;
        assert(self.tape.work@ =~= k + t);
    }

    /// Pushes a constant extension element.
    pub(crate) fn push_ef_const(
        &mut self,
        x: [u32; 4],
        Ghost(k): Ghost<Seq<Val>>,
        Ghost(t): Ghost<Seq<Val>>,
        Ghost(a): Ghost<Seq<Val>>,
    )
        requires
            old(self).holds(k, t, a),
        ensures
            final(self).holds(k, t + sp(symbols::fixed(ext4::quad(x@))), a),
            final(self).same(old(self)),
    {
        self.tape.push(x[0]);
        self.tape.push(x[1]);
        self.tape.push(x[2]);
        self.tape.push(x[3]);
        assert(self.tape.ops.len() == self.tape.ops@.len());
        self.temps = self.temps + 4;
        proof {
            lemma_one(symbols::fixed(ext4::quad(x@)));
            assert(self.tape.work@ =~= k + (t + sp(symbols::fixed(ext4::quad(x@)))));
        }
    }

    /// Lifts the base element on top to the extension.
    pub(crate) fn lift(
        &mut self,
        Ghost(k): Ghost<Seq<Val>>,
        Ghost(t): Ghost<Seq<Val>>,
        Ghost(v): Ghost<Val>,
        Ghost(a): Ghost<Seq<Val>>,
    )
        requires
            old(self).holds(k, t + seq![v], a),
        ensures
            final(self).holds(k, t + sp(symbols::lifted(v)), a),
            final(self).same(old(self)),
    {
        self.tape.push(0);
        self.tape.push(0);
        self.tape.push(0);
        assert(self.tape.ops.len() == self.tape.ops@.len());
        self.temps = self.temps + 3;
        proof {
            lemma_one(symbols::lifted(v));
            assert(self.tape.work@ =~= k + (t + sp(symbols::lifted(v))));
        }
    }

    /// The product of the two extension elements on top.
    pub(crate) fn ef_mul(
        &mut self,
        Ghost(k): Ghost<Seq<Val>>,
        Ghost(t): Ghost<Seq<Val>>,
        Ghost(x): Ghost<Sym>,
        Ghost(y): Ghost<Sym>,
        Ghost(a): Ghost<Seq<Val>>,
    )
        requires
            old(self).holds(k, (t + sp(x)) + sp(y), a),
        ensures
            final(self).holds(k, t + sp(symbols::times(x, y)), a),
            final(self).same(old(self)),
    {
        proof {
            lemma_two(t, x, y);
            assert(k + (t + spread(seq![x, y])) =~= (k + t) + spread(seq![x, y]));
            symbols::effect_pair(spread(seq![x, y]));
        }
        let ghost r = sp(symbols::times(x, y));
        self.tape.plain(Op::ExtMul, Ghost(k + t), Ghost(spread(seq![x, y])), Ghost(r));
        self.temps = self.temps - 4;
        proof {
            let z = sp(symbols::times(x, y));
            assert((k + t) + z =~= k + (t + z));
            assert(z.len() == 4);
        }
    }

    /// The sum of the two extension elements on top.
    pub(crate) fn ef_add(
        &mut self,
        Ghost(k): Ghost<Seq<Val>>,
        Ghost(t): Ghost<Seq<Val>>,
        Ghost(x): Ghost<Sym>,
        Ghost(y): Ghost<Sym>,
        Ghost(a): Ghost<Seq<Val>>,
    )
        requires
            old(self).holds(k, (t + sp(x)) + sp(y), a),
        ensures
            final(self).holds(k, t + sp(symbols::plus(x, y)), a),
            final(self).same(old(self)),
    {
        proof {
            lemma_two(t, x, y);
            assert(k + (t + spread(seq![x, y])) =~= (k + t) + spread(seq![x, y]));
            symbols::effect_pair(spread(seq![x, y]));
        }
        let ghost r = sp(symbols::plus(x, y));
        self.tape.plain(Op::ExtAdd, Ghost(k + t), Ghost(spread(seq![x, y])), Ghost(r));
        self.temps = self.temps - 4;
        proof {
            let z = sp(symbols::plus(x, y));
            assert((k + t) + z =~= k + (t + z));
            assert(z.len() == 4);
        }
    }

    /// Moves the extension element on top to the alternative stack.
    pub(crate) fn ef_to_alt(
        &mut self,
        Ghost(k): Ghost<Seq<Val>>,
        Ghost(t): Ghost<Seq<Val>>,
        Ghost(x): Ghost<Sym>,
        Ghost(a): Ghost<Seq<Val>>,
    )
        requires
            old(self).holds(k, t + sp(x), a),
        ensures
            final(self).holds(k, t, a + symbols::alt_spread(seq![x])),
            final(self).same(old(self)),
    {
        let ghost none = Seq::<Val>::empty();
        proof {
            lemma_one(x);
            symbols::effect_to_alt(x);
            assert(k + (t + sp(x)) =~= (k + t) + sp(x));
            assert(a + none =~= a);
        }
        let ghost r = symbols::alt_spread(seq![x]);
        self.tape.emit(
            Op::ExtToAlt,
            Ghost(k + t),
            Ghost(sp(x)),
            Ghost(a),
            Ghost(none),
            Ghost(none),
            Ghost(r),
        );
        self.temps = self.temps - 4;
        assert((k + t) + none =~= k + t);
    }

    /// `[x(4) b(1)] -> [x b (4)]`, the base element scaling each coefficient.
    pub(crate) fn ef_mul_base(
        &mut self,
        Ghost(k): Ghost<Seq<Val>>,
        Ghost(t): Ghost<Seq<Val>>,
        Ghost(x): Ghost<Sym>,
        Ghost(b): Ghost<Val>,
        Ghost(a): Ghost<Seq<Val>>,
    )
        requires
            old(self).holds(k, (t + sp(x)) + seq![b], a),
        ensures
            final(self).holds(k, t + sp(symbols::times(x, symbols::lifted(b))), a),
            final(self).same(old(self)),
    {
        let ghost base = k + t;
        let ghost xs = sp(x);
        let ghost ys = sp(symbols::times(x, symbols::lifted(b)));
        proof {
            lemma_one(x);
            lemma_one(symbols::times(x, symbols::lifted(b)));
            let p = symbols::times(x, symbols::lifted(b));
            assert forall|u: Seq<int>| true implies #[trigger] p.at(u) == ext4::times(
                x.at(u),
                ext4::lifted(b(u)),
            ) by {}
            assert forall|i: int| 0 <= i < 4 implies #[trigger] ys[i] == symbols::base_times(
                xs[i],
                b,
            ) by {
                let want = symbols::base_times(xs[i], b);
                assert forall|u: Seq<int>| #[trigger] ys[i](u) == want(u) by {
                    ext4::law_times_lifted(x.at(u), b(u));
                    assert(p.at(u) == ext4::times(x.at(u), ext4::lifted(b(u))));
                }
                assert(ys[i] =~= want);
            }
        }
        self.tape.to_alt();
        assert(self.tape.work@ =~= (base + xs.skip(0)) + ys.take(0));
        assert(self.tape.alt@ =~= a.push(b));
        let mut j: usize = 0;
        while j < 4
            invariant
                j <= 4,
                xs.len() == 4,
                ys.len() == 4,
                forall|i: int| 0 <= i < 4 ==> #[trigger] ys[i] == symbols::base_times(xs[i], b),
                self.tape.sound(),
                self.tape.work@ == (base + xs.skip(j as int)) + ys.take(j as int),
                self.tape.alt@ == a.push(b),
                self.same(old(self)),
                self.kept == old(self).kept,
                self.temps == old(self).temps,
                self.state == old(self).state,
            decreases 4 - j,
        {
            let ghost w = self.tape.work@;
            self.tape.roll(3);
            let ghost rest = (base + xs.skip(j + 1)) + ys.take(j as int);
            assert(self.tape.work@ =~= rest.push(xs[j as int]));
            self.tape.from_alt();
            self.tape.dup();
            self.tape.to_alt();
            assert(self.tape.work@ =~= rest.push(xs[j as int]).push(b));
            assert(self.tape.alt@ =~= a.push(b));
            self.tape.field_mul();
            j = j + 1;
            assert(self.tape.work@ =~= (base + xs.skip(j as int)) + ys.take(j as int));
        }
        self.tape.from_alt();
        self.tape.drop_one();
        self.temps = self.temps - 1;
        assert(self.tape.work@ =~= k + (t + ys));
        assert(self.tape.alt@ =~= a);
    }

    /// Requires the two extension elements on top to be equal; both go.
    pub(crate) fn equal_verify_ef(
        &mut self,
        Ghost(k): Ghost<Seq<Val>>,
        Ghost(t): Ghost<Seq<Val>>,
        Ghost(x): Ghost<Sym>,
        Ghost(y): Ghost<Sym>,
        Ghost(a): Ghost<Seq<Val>>,
    )
        requires
            old(self).holds(k, (t + sp(x)) + sp(y), a),
        ensures
            final(self).holds(k, t, a),
            final(self).tape.data@ == old(self).tape.data@,
            final(self).samples@ == old(self).samples@,
            final(self).tape.ok@ == both(old(self).tape.ok@, symbols::same(x, y)),
            final(self).census() == old(self).census(),
    {
        let ghost base = k + t;
        let ghost (xs, ys) = (sp(x), sp(y));
        proof {
            lemma_one(x);
            lemma_one(y);
            assert(self.tape.work@ =~= (base + xs.take(4)) + ys.take(4));
        }
        let mut i: usize = 0;
        while i < COMPARE_EF
            invariant
                i <= 4,
                xs.len() == 4,
                ys.len() == 4,
                self.tape.sound(),
                self.tape.work@ == (base + xs.take(4 - i)) + ys.take(4 - i),
                self.tape.alt@ == a,
                forall|u: Seq<int>| #[trigger]
                    (self.tape.ok@)(u) == ((old(self).tape.ok@)(u) && forall|j: int|
                        4 - i <= j < 4 ==> xs[j](u) == ys[j](u)),
                self.tape.data@ == old(self).tape.data@,
                self.samples@ == old(self).samples@,
                self.census() == old(self).census(),
                self.kept == old(self).kept,
                self.temps == old(self).temps,
                self.state == old(self).state,
            decreases 4 - i,
        {
            let m = COMPARE_EF - i;
            let ghost before = self.tape.ok@;
            self.tape.roll(m);
            assert(self.tape.work@ =~= ((base + xs.take(m - 1)) + ys.take(m as int)).push(
                xs[m - 1],
            ));
            self.tape.equal_verify();
            i = i + 1;
            assert(self.tape.work@ =~= (base + xs.take(4 - i)) + ys.take(4 - i));
            proof {
                assert forall|u: Seq<int>| #[trigger] (self.tape.ok@)(u) == ((old(self).tape.ok@)(
                    u,
                ) && forall|j: int| 4 - i <= j < 4 ==> xs[j](u) == ys[j](u)) by {
                    assert((self.tape.ok@)(u) == (before(u) && ys[m - 1](u) == xs[m - 1](u)));
                }
            }
        }
        self.temps = self.temps - 8;
        assert(self.tape.work@ =~= k + t);
        proof {
            let want = both(old(self).tape.ok@, symbols::same(x, y));
            assert forall|u: Seq<int>| #[trigger] (self.tape.ok@)(u) == want(u) by {
                assert(xs[0](u) == x.at(u).a && xs[1](u) == x.at(u).b && xs[2](u) == x.at(u).c
                    && xs[3](u) == x.at(u).d);
                assert(ys[0](u) == y.at(u).a && ys[1](u) == y.at(u).b && ys[2](u) == y.at(u).c
                    && ys[3](u) == y.at(u).d);
            }
            assert(self.tape.ok@ =~= want);
        }
    }
}

impl Sponge for Builder {
    type St = Duplex;

    open spec fn st(&self) -> Duplex {
        self.challenger.st()
    }

    open spec fn machine() -> Machine<Duplex> {
        sponge::duplex()
    }

    open spec fn ready(&self) -> bool {
        self.running()
    }

    /// Reads the value from the data, and duplexes at a full rate.
    fn observe(&mut self, value: u32) {
        let ghost d = self.challenger.st();
        self.challenger.observe(value);
        let i = self.tape.data.len();
        self.tape.add_datum(value);
        assert(self.tape.data.len() == self.tape.data@.len());
        assert(self.samples.len() == self.samples@.len());
        let depth: u128 = i as u128 + self.kept + self.above();
        self.tape.read(i as u128, depth);
        self.available = 0;
        self.pending = self.pending + 1;
        let ghost (n, m) = (d.drawn.len(), d.input.len());
        let ghost below = symbols::drawn(d.calls, n);
        let ghost state = symbols::state(d.calls);
        let ghost input = symbols::pending(d.calls, m).push(symbols::datum(i as int));
        proof {
            assert(self.tape.work@ =~= (below + state) + input);
            assert(permutation::ints(self.tape.data@) =~= d.seen.push(value as int));
        }
        if self.pending == RATE {
            self.duplex(Ghost(below), Ghost(state), Ghost(input));
        }
        proof {
            self.challenger.lemma_ready();
            sponge::lemma_traced(d, value as int);
            permutation::lemma_permutation(
                sponge::loaded(d.state, d.input.push(value as int)),
            );
            symbols::lemma_observing(d.calls, d.seen, n, m);
            let e = self.challenger.st();
            assert(self.tape.work@ =~= (symbols::drawn(e.calls, n) + symbols::state(e.calls))
                + symbols::pending(e.calls, e.input.len()));
        }
    }

    /// Reads a slot of the rate and buries it under the state.
    fn sample(&mut self) -> u32 {
        let ghost d = self.challenger.st();
        let value = self.challenger.sample();
        let ghost (n, m) = (d.drawn.len(), d.input.len());
        let ghost below = symbols::drawn(d.calls, n);
        let ghost input = symbols::pending(d.calls, m);
        let ghost mut state = symbols::state(d.calls);
        let ghost p = sponge::primed(d);
        if self.pending > 0 || self.available == 0 {
            self.duplex(Ghost(below), Ghost(state), Ghost(input));
            proof {
                state = symbols::permuted(state, input);
            }
        }
        proof {
            permutation::lemma_permutation(sponge::loaded(d.state, d.input));
            assert(self.tape.work@ =~= below + state);
            assert(p.output == p.state.take(p.output.len() as int));
        }
        self.available = self.available - 1;
        let slot = self.available;
        let ghost v = state[slot as int];
        let ghost more = state.push(v);
        proof {
            symbols::effect_sample(slot, state);
        }
        self.tape.plain(Op::Sample(slot), Ghost(below), Ghost(state), Ghost(more));
        assert(self.tape.work@ =~= (below + state) + seq![v]);
        self.tape.sink(Ghost(below), Ghost(state), Ghost(v));
        self.samples.push(value);
        assert(self.samples.len() == self.samples@.len());
        self.kept = self.kept + 1;
        proof {
            self.challenger.lemma_ready();
            sponge::lemma_traced(d, 0);
            symbols::lemma_sampling(d.calls, d.seen, n, m);
            let e = self.challenger.st();
            assert(self.tape.work@ =~= (symbols::drawn(e.calls, n + 1) + symbols::state(e.calls))
                + symbols::pending(e.calls, 0));
            assert(permutation::ints(self.samples@) =~= e.drawn);
        }
        value
    }
}

} // verus!

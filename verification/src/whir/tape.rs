//! A program under construction, with what running it does on any data.
//!
//! The program runs above its data, element 0 on top. Next to the operations
//! emitted so far a tape keeps, for proofs only, what the stacks hold after them
//! and whether every requirement so far was met, as functions of the data.
use super::script;
use super::script::{needs, needs_alt, Machine, Op, Outcome};
use super::symbols;
use super::symbols::{at, both, constant, datum, does, Cond, Val};
use crate::poseidon2::constants::WIDTH;
use vstd::prelude::*;

verus! {

/// The first `n` elements of the data as they lie below a program.
pub open spec fn below(u: Seq<int>, n: nat) -> Seq<int> {
    Seq::new(n, |i: int| u[n - 1 - i])
}

/// The machine a program over the first `n` elements of the data starts on.
pub open spec fn start(u: Seq<int>, n: nat) -> Machine {
    Machine { main: below(u, n), alt: Seq::empty() }
}

pub struct Tape {
    pub ops: Vec<Op>,
    pub data: Vec<u32>,
    /// The main stack above the data.
    pub work: Ghost<Seq<Val>>,
    /// The alternative stack.
    pub alt: Ghost<Seq<Val>>,
    /// Whether every requirement was met.
    pub ok: Ghost<Cond>,
}

impl Tape {
    /// How a run over `u` stands.
    pub open spec fn outcome(&self, u: Seq<int>) -> Outcome {
        if (self.ok@)(u) {
            Outcome::Running(
                Machine {
                    main: below(u, self.data@.len()) + at(self.work@, u),
                    alt: at(self.alt@, u),
                },
            )
        } else {
            Outcome::Rejected
        }
    }

    /// The program does what the tape says, whatever the data.
    pub open spec fn sound(&self) -> bool {
        &&& forall|u: Seq<int>|
            u.len() >= self.data@.len() ==> script::run(
                self.ops@,
                #[trigger] start(u, self.data@.len()),
            ) == self.outcome(u)
        &&& self.work@.len() <= 8 * self.ops@.len()
    }

    pub(crate) fn new() -> (r: Self)
        ensures
            r.sound(),
            r.ops@ == Seq::<Op>::empty(),
            r.data@ == Seq::<u32>::empty(),
            r.work@ == Seq::<Val>::empty(),
            r.alt@ == Seq::<Val>::empty(),
            r.ok@ == symbols::always(),
    {
        let r = Tape {
            ops: Vec::new(),
            data: Vec::new(),
            work: Ghost(Seq::empty()),
            alt: Ghost(Seq::empty()),
            ok: Ghost(symbols::always()),
        };
        proof {
            assert forall|u: Seq<int>| u.len() >= 0 implies script::run(
                r.ops@,
                #[trigger] start(u, 0),
            ) == r.outcome(u) by {
                symbols::lemma_at_none(u);
                assert(below(u, 0) + at(r.work@, u) =~= below(u, 0));
            }
        }
        r
    }

    /// Emits an operation that makes `r` and `b` of `t` and `a` where the data meets
    /// `c`.
    pub(crate) fn check(
        &mut self,
        op: Op,
        Ghost(base): Ghost<Seq<Val>>,
        Ghost(t): Ghost<Seq<Val>>,
        Ghost(alt_base): Ghost<Seq<Val>>,
        Ghost(a): Ghost<Seq<Val>>,
        Ghost(c): Ghost<Cond>,
        Ghost(r): Ghost<Seq<Val>>,
        Ghost(b): Ghost<Seq<Val>>,
    )
        requires
            old(self).sound(),
            old(self).work@ == base + t,
            old(self).alt@ == alt_base + a,
            t.len() == needs(op),
            a.len() == needs_alt(op),
            does(op, t, a, c, r, b),
            r.len() <= t.len() + 8,
        ensures
            final(self).sound(),
            final(self).data@ == old(self).data@,
            final(self).ops@ == old(self).ops@.push(op),
            final(self).work@ == base + r,
            final(self).alt@ == alt_base + b,
            final(self).ok@ == both(old(self).ok@, c),
    {
        let ghost before = *self;
        let ghost n = self.data@.len();
        self.ops.push(op);
        self.work = Ghost(base + r);
        self.alt = Ghost(alt_base + b);
        self.ok = Ghost(both(self.ok@, c));
        proof {
            broadcast use symbols::group_at;

            assert forall|u: Seq<int>| u.len() >= n implies script::run(
                self.ops@,
                #[trigger] start(u, n),
            ) == self.outcome(u) by {
                let d = below(u, n);
                let low = d + at(base, u);
                assert(script::run(before.ops@, start(u, n)) == before.outcome(u));
                script::lemma_run_push(before.ops@, op, start(u, n));
                script::lemma_step(op, low, at(t, u), at(alt_base, u), at(a, u));
                assert(low + at(t, u) =~= d + (at(base, u) + at(t, u)));
                assert(low + at(r, u) =~= d + (at(base, u) + at(r, u)));
                assert(script::effect(op, at(t, u), at(a, u)) == (if c(u) {
                    Some((at(r, u), at(b, u)))
                } else {
                    None
                }));
            }
        }
    }

    /// Emits an operation that makes `r` and `b` of `t` and `a`.
    pub(crate) fn emit(
        &mut self,
        op: Op,
        Ghost(base): Ghost<Seq<Val>>,
        Ghost(t): Ghost<Seq<Val>>,
        Ghost(alt_base): Ghost<Seq<Val>>,
        Ghost(a): Ghost<Seq<Val>>,
        Ghost(r): Ghost<Seq<Val>>,
        Ghost(b): Ghost<Seq<Val>>,
    )
        requires
            old(self).sound(),
            old(self).work@ == base + t,
            old(self).alt@ == alt_base + a,
            t.len() == needs(op),
            a.len() == needs_alt(op),
            does(op, t, a, symbols::always(), r, b),
            r.len() <= t.len() + 8,
        ensures
            final(self).sound(),
            final(self).data@ == old(self).data@,
            final(self).ops@ == old(self).ops@.push(op),
            final(self).work@ == base + r,
            final(self).alt@ == alt_base + b,
            final(self).ok@ == old(self).ok@,
    {
        proof {
            symbols::lemma_both(self.ok@);
        }
        let ghost c = symbols::always();
        self.check(op, Ghost(base), Ghost(t), Ghost(alt_base), Ghost(a), Ghost(c), Ghost(r), Ghost(b));
    }

    /// Emits an operation that leaves the alternative stack alone.
    pub(crate) fn plain(
        &mut self,
        op: Op,
        Ghost(base): Ghost<Seq<Val>>,
        Ghost(t): Ghost<Seq<Val>>,
        Ghost(r): Ghost<Seq<Val>>,
    )
        requires
            old(self).sound(),
            old(self).work@ == base + t,
            t.len() == needs(op),
            needs_alt(op) == 0,
            does(op, t, symbols::none(), symbols::always(), r, symbols::none()),
            r.len() <= t.len() + 8,
        ensures
            final(self).sound(),
            final(self).data@ == old(self).data@,
            final(self).ops@ == old(self).ops@.push(op),
            final(self).work@ == base + r,
            final(self).alt@ == old(self).alt@,
            final(self).ok@ == old(self).ok@,
    {
        let ghost alt = self.alt@;
        proof {
            assert(alt + symbols::none() =~= alt);
        }
        self.emit(
            op,
            Ghost(base),
            Ghost(t),
            Ghost(alt),
            Ghost(symbols::none()),
            Ghost(r),
            Ghost(symbols::none()),
        );
    }

    /// Pushes a number.
    pub(crate) fn push(&mut self, v: u32)
        requires
            old(self).sound(),
        ensures
            final(self).sound(),
            final(self).data@ == old(self).data@,
            final(self).ops@ == old(self).ops@.push(Op::Push(v)),
            final(self).work@ == old(self).work@.push(constant(v as int)),
            final(self).alt@ == old(self).alt@,
            final(self).ok@ == old(self).ok@,
    {
        let ghost w = self.work@;
        let ghost r = seq![constant(v as int)];
        proof {
            symbols::effect_push(v);
            assert(w + symbols::none() =~= w);
        }
        self.plain(Op::Push(v), Ghost(w), Ghost(symbols::none()), Ghost(r));
        assert(self.work@ =~= w.push(constant(v as int)));
    }

    /// Copies the slot `depth` below the top.
    pub(crate) fn copy(&mut self, depth: u128)
        requires
            old(self).sound(),
            depth < old(self).work@.len(),
        ensures
            final(self).sound(),
            final(self).data@ == old(self).data@,
            final(self).ops@ == old(self).ops@.push(Op::Pick(depth)),
            final(self).work@ == old(self).work@.push(
                old(self).work@[old(self).work@.len() - 1 - depth],
            ),
            final(self).alt@ == old(self).alt@,
            final(self).ok@ == old(self).ok@,
    {
        let ghost w = self.work@;
        let ghost n = w.len() - 1 - depth;
        let ghost t = w.skip(n);
        proof {
            assert(w.take(n) + t =~= w);
            symbols::effect_pick(depth, t);
        }
        self.plain(Op::Pick(depth), Ghost(w.take(n)), Ghost(t), Ghost(t.push(t[0])));
        assert(self.work@ =~= w.push(w[n]));
    }

    /// Moves the slot `depth` below the top to the top.
    pub(crate) fn roll(&mut self, depth: usize)
        requires
            old(self).sound(),
            depth < old(self).work@.len(),
        ensures
            final(self).sound(),
            final(self).data@ == old(self).data@,
            final(self).ops@ == old(self).ops@.push(Op::Roll(depth)),
            final(self).work@ == old(self).work@.remove(old(self).work@.len() - 1 - depth).push(
                old(self).work@[old(self).work@.len() - 1 - depth],
            ),
            final(self).alt@ == old(self).alt@,
            final(self).ok@ == old(self).ok@,
    {
        let ghost w = self.work@;
        let ghost n = w.len() - 1 - depth;
        let ghost t = w.skip(n);
        proof {
            assert(w.take(n) + t =~= w);
            symbols::effect_roll(depth, t);
        }
        self.plain(Op::Roll(depth), Ghost(w.take(n)), Ghost(t), Ghost(t.skip(1).push(t[0])));
        assert(self.work@ =~= w.remove(n).push(w[n]));
    }

    /// Copies data element `i`, which lies `depth` below the top.
    pub(crate) fn read(&mut self, i: u128, depth: u128)
        requires
            old(self).sound(),
            i < old(self).data@.len(),
            depth == i + old(self).work@.len(),
        ensures
            final(self).sound(),
            final(self).data@ == old(self).data@,
            final(self).ops@ == old(self).ops@.push(Op::Pick(depth)),
            final(self).work@ == old(self).work@.push(datum(i as int)),
            final(self).alt@ == old(self).alt@,
            final(self).ok@ == old(self).ok@,
    {
        let ghost before = *self;
        let ghost w = self.work@;
        let ghost k = self.data@.len();
        let ghost v = datum(i as int);
        self.ops.push(Op::Pick(depth));
        self.work = Ghost(w.push(v));
        proof {
            broadcast use symbols::group_at;

            assert forall|u: Seq<int>| u.len() >= k implies script::run(
                self.ops@,
                #[trigger] start(u, k),
            ) == self.outcome(u) by {
                let (b, x, alt) = (below(u, k), at(w, u), at(self.alt@, u));
                let none = Seq::<int>::empty();
                let m = b + x;
                let n = m.len() - 1 - depth;
                assert(script::run(before.ops@, start(u, k)) == before.outcome(u));
                reveal(script::effect);
                assert(m.take(n) + m.skip(n) =~= m);
                assert(alt + none =~= alt);
                assert(m[n] == b[k - 1 - i]);
                script::lemma_run_push(before.ops@, Op::Pick(depth), start(u, k));
                script::lemma_step(Op::Pick(depth), m.take(n), m.skip(n), alt, none);
                assert(m.take(n) + m.skip(n).push(v(u)) =~= b + x.push(v(u)));
            }
        }
    }

    /// One data element more, below all others.
    pub(crate) fn add_datum(&mut self, v: u32)
        requires
            old(self).sound(),
        ensures
            final(self).sound(),
            final(self).data@ == old(self).data@.push(v),
            final(self).ops@ == old(self).ops@,
            final(self).work@ == old(self).work@,
            final(self).alt@ == old(self).alt@,
            final(self).ok@ == old(self).ok@,
    {
        let ghost before = *self;
        let ghost n = self.data@.len();
        self.data.push(v);
        proof {
            assert forall|u: Seq<int>| u.len() >= self.data@.len() implies script::run(
                self.ops@,
                #[trigger] start(u, self.data@.len()),
            ) == self.outcome(u) by {
                let none = Seq::<int>::empty();
                let more = seq![u[n as int]];
                let b = below(u, n);
                let m = start(u, n);
                assert(script::run(before.ops@, m) == before.outcome(u));
                script::law_frame(self.ops@, more, none, m);
                assert(below(u, self.data@.len()) =~= more + b);
                assert(none + none =~= none);
                assert(script::on_top(more, none, m) == start(u, self.data@.len()));
                assert(none + at(self.alt@, u) =~= at(self.alt@, u));
                assert(more + (b + at(self.work@, u)) =~= below(u, self.data@.len()) + at(
                    self.work@,
                    u,
                ));
            }
        }
    }

    /// Copies the top.
    pub(crate) fn dup(&mut self)
        requires
            old(self).sound(),
            old(self).work@.len() >= 1,
        ensures
            final(self).sound(),
            final(self).data@ == old(self).data@,
            final(self).ops@ == old(self).ops@.push(Op::Dup),
            final(self).work@ == old(self).work@.push(old(self).work@.last()),
            final(self).alt@ == old(self).alt@,
            final(self).ok@ == old(self).ok@,
    {
        let ghost w = self.work@;
        let ghost n = w.len() - 1;
        let ghost t = w.skip(n);
        proof {
            assert(w.take(n) + t =~= w);
            symbols::effect_dup(w[n]);
            assert(t =~= seq![w[n]]);
        }
        let ghost r = seq![w[n], w[n]];
        self.plain(Op::Dup, Ghost(w.take(n)), Ghost(t), Ghost(r));
        assert(self.work@ =~= w.push(w.last()));
    }

    /// Drops the top.
    pub(crate) fn drop_one(&mut self)
        requires
            old(self).sound(),
            old(self).work@.len() >= 1,
        ensures
            final(self).sound(),
            final(self).data@ == old(self).data@,
            final(self).ops@ == old(self).ops@.push(Op::Drop),
            final(self).work@ == old(self).work@.drop_last(),
            final(self).alt@ == old(self).alt@,
            final(self).ok@ == old(self).ok@,
    {
        let ghost w = self.work@;
        let ghost n = w.len() - 1;
        let ghost t = w.skip(n);
        proof {
            assert(w.take(n) + t =~= w);
            symbols::effect_drops(t, 0);
        }
        self.plain(Op::Drop, Ghost(w.take(n)), Ghost(t), Ghost(symbols::none()));
        assert(self.work@ =~= w.drop_last());
    }

    /// Drops two.
    pub(crate) fn two_drop(&mut self)
        requires
            old(self).sound(),
            old(self).work@.len() >= 2,
        ensures
            final(self).sound(),
            final(self).data@ == old(self).data@,
            final(self).ops@ == old(self).ops@.push(Op::TwoDrop),
            final(self).work@ == old(self).work@.take(old(self).work@.len() - 2),
            final(self).alt@ == old(self).alt@,
            final(self).ok@ == old(self).ok@,
    {
        let ghost w = self.work@;
        let ghost n = w.len() - 2;
        let ghost t = w.skip(n);
        proof {
            assert(w.take(n) + t =~= w);
            symbols::effect_drops(t, 0);
        }
        self.plain(Op::TwoDrop, Ghost(w.take(n)), Ghost(t), Ghost(symbols::none()));
        assert(self.work@ =~= w.take(w.len() - 2));
    }

    /// The product of two base elements.
    pub(crate) fn field_mul(&mut self)
        requires
            old(self).sound(),
            old(self).work@.len() >= 2,
        ensures
            final(self).sound(),
            final(self).data@ == old(self).data@,
            final(self).ops@ == old(self).ops@.push(Op::FieldMul),
            final(self).work@ == old(self).work@.take(old(self).work@.len() - 2).push(
                symbols::base_times(old(self).work@[old(self).work@.len() - 2], old(self).work@.last()),
            ),
            final(self).alt@ == old(self).alt@,
            final(self).ok@ == old(self).ok@,
    {
        let ghost w = self.work@;
        let ghost n = w.len() - 2;
        let ghost t = w.skip(n);
        proof {
            assert(w.take(n) + t =~= w);
            symbols::effect_bases(w[n], w[n + 1], 0);
            assert(t =~= seq![w[n], w[n + 1]]);
        }
        let ghost r = seq![symbols::base_times(w[n], w[n + 1])];
        self.plain(Op::FieldMul, Ghost(w.take(n)), Ghost(t), Ghost(r));
        assert(self.work@ =~= w.take(n).push(symbols::base_times(w[n], w.last())));
    }

    /// The difference of two base elements.
    pub(crate) fn field_sub(&mut self)
        requires
            old(self).sound(),
            old(self).work@.len() >= 2,
        ensures
            final(self).sound(),
            final(self).data@ == old(self).data@,
            final(self).ops@ == old(self).ops@.push(Op::FieldSub),
            final(self).work@ == old(self).work@.take(old(self).work@.len() - 2).push(
                symbols::base_minus(old(self).work@[old(self).work@.len() - 2], old(self).work@.last()),
            ),
            final(self).alt@ == old(self).alt@,
            final(self).ok@ == old(self).ok@,
    {
        let ghost w = self.work@;
        let ghost n = w.len() - 2;
        let ghost t = w.skip(n);
        proof {
            assert(w.take(n) + t =~= w);
            symbols::effect_bases(w[n], w[n + 1], 0);
            assert(t =~= seq![w[n], w[n + 1]]);
        }
        let ghost r = seq![symbols::base_minus(w[n], w[n + 1])];
        self.plain(Op::FieldSub, Ghost(w.take(n)), Ghost(t), Ghost(r));
        assert(self.work@ =~= w.take(n).push(symbols::base_minus(w[n], w.last())));
    }

    /// Requires the two on top to be equal.
    pub(crate) fn equal_verify(&mut self)
        requires
            old(self).sound(),
            old(self).work@.len() >= 2,
        ensures
            final(self).sound(),
            final(self).data@ == old(self).data@,
            final(self).ops@ == old(self).ops@.push(Op::EqualVerify),
            final(self).work@ == old(self).work@.take(old(self).work@.len() - 2),
            final(self).alt@ == old(self).alt@,
            final(self).ok@ == both(
                old(self).ok@,
                symbols::equal(
                    old(self).work@[old(self).work@.len() - 2],
                    old(self).work@.last(),
                ),
            ),
    {
        let ghost w = self.work@;
        let ghost alt = self.alt@;
        let ghost n = w.len() - 2;
        let ghost t = w.skip(n);
        let ghost c = symbols::equal(w[n], w[n + 1]);
        proof {
            assert(w.take(n) + t =~= w);
            assert(alt + symbols::none() =~= alt);
            symbols::effect_bases(w[n], w[n + 1], 0);
            assert(t =~= seq![w[n], w[n + 1]]);
        }
        self.check(
            Op::EqualVerify,
            Ghost(w.take(n)),
            Ghost(t),
            Ghost(alt),
            Ghost(symbols::none()),
            Ghost(c),
            Ghost(symbols::none()),
            Ghost(symbols::none()),
        );
        assert(self.work@ =~= w.take(n));
    }

    /// Whether the second is below the top.
    pub(crate) fn less_than(&mut self)
        requires
            old(self).sound(),
            old(self).work@.len() >= 2,
        ensures
            final(self).sound(),
            final(self).data@ == old(self).data@,
            final(self).ops@ == old(self).ops@.push(Op::LessThan),
            final(self).work@ == old(self).work@.take(old(self).work@.len() - 2).push(
                symbols::less(
                    old(self).work@[old(self).work@.len() - 2],
                    old(self).work@.last(),
                ),
            ),
            final(self).alt@ == old(self).alt@,
            final(self).ok@ == old(self).ok@,
    {
        let ghost w = self.work@;
        let ghost n = w.len() - 2;
        let ghost t = w.skip(n);
        proof {
            assert(w.take(n) + t =~= w);
            symbols::effect_bases(w[n], w[n + 1], 0);
            assert(t =~= seq![w[n], w[n + 1]]);
        }
        let ghost r = seq![symbols::less(w[n], w[n + 1])];
        self.plain(Op::LessThan, Ghost(w.take(n)), Ghost(t), Ghost(r));
        assert(self.work@ =~= w.take(n).push(symbols::less(w[n], w.last())));
    }

    /// Whether the second is at least the top.
    pub(crate) fn at_least(&mut self)
        requires
            old(self).sound(),
            old(self).work@.len() >= 2,
        ensures
            final(self).sound(),
            final(self).data@ == old(self).data@,
            final(self).ops@ == old(self).ops@.push(Op::GreaterThanOrEqual),
            final(self).work@ == old(self).work@.take(old(self).work@.len() - 2).push(
                symbols::at_least(
                    old(self).work@[old(self).work@.len() - 2],
                    old(self).work@.last(),
                ),
            ),
            final(self).alt@ == old(self).alt@,
            final(self).ok@ == old(self).ok@,
    {
        let ghost w = self.work@;
        let ghost n = w.len() - 2;
        let ghost t = w.skip(n);
        proof {
            assert(w.take(n) + t =~= w);
            symbols::effect_bases(w[n], w[n + 1], 0);
            assert(t =~= seq![w[n], w[n + 1]]);
        }
        let ghost r = seq![symbols::at_least(w[n], w[n + 1])];
        self.plain(Op::GreaterThanOrEqual, Ghost(w.take(n)), Ghost(t), Ghost(r));
        assert(self.work@ =~= w.take(n).push(symbols::at_least(w[n], w.last())));
    }

    /// Requires the top not to be zero.
    pub(crate) fn verify(&mut self)
        requires
            old(self).sound(),
            old(self).work@.len() >= 1,
        ensures
            final(self).sound(),
            final(self).data@ == old(self).data@,
            final(self).ops@ == old(self).ops@.push(Op::Verify),
            final(self).work@ == old(self).work@.drop_last(),
            final(self).alt@ == old(self).alt@,
            final(self).ok@ == both(
                old(self).ok@,
                symbols::nonzero(old(self).work@.last()),
            ),
    {
        let ghost w = self.work@;
        let ghost alt = self.alt@;
        let ghost n = w.len() - 1;
        let ghost t = w.skip(n);
        let ghost c = symbols::nonzero(w[n]);
        proof {
            assert(w.take(n) + t =~= w);
            assert(alt + symbols::none() =~= alt);
            symbols::effect_base(w[n], 0, 0, 0);
            assert(t =~= seq![w[n]]);
        }
        self.check(
            Op::Verify,
            Ghost(w.take(n)),
            Ghost(t),
            Ghost(alt),
            Ghost(symbols::none()),
            Ghost(c),
            Ghost(symbols::none()),
            Ghost(symbols::none()),
        );
        assert(self.work@ =~= w.take(n));
    }

    /// Adds a number if the top is not zero.
    pub(crate) fn add_if(&mut self, v: u32)
        requires
            old(self).sound(),
            old(self).work@.len() >= 2,
        ensures
            final(self).sound(),
            final(self).data@ == old(self).data@,
            final(self).ops@ == old(self).ops@.push(Op::AddIf(v)),
            final(self).work@ == old(self).work@.take(old(self).work@.len() - 2).push(
                symbols::added_if(
                    old(self).work@[old(self).work@.len() - 2],
                    old(self).work@.last(),
                    v as int,
                ),
            ),
            final(self).alt@ == old(self).alt@,
            final(self).ok@ == old(self).ok@,
    {
        let ghost w = self.work@;
        let ghost n = w.len() - 2;
        let ghost t = w.skip(n);
        proof {
            assert(w.take(n) + t =~= w);
            symbols::effect_bases(w[n], w[n + 1], v);
            assert(t =~= seq![w[n], w[n + 1]]);
        }
        let ghost r = seq![symbols::added_if(w[n], w[n + 1], v as int)];
        self.plain(Op::AddIf(v), Ghost(w.take(n)), Ghost(t), Ghost(r));
        assert(self.work@ =~= w.take(n).push(symbols::added_if(w[n], w.last(), v as int)));
    }

    /// Moves the top to the alternative stack.
    pub(crate) fn to_alt(&mut self)
        requires
            old(self).sound(),
            old(self).work@.len() >= 1,
        ensures
            final(self).sound(),
            final(self).data@ == old(self).data@,
            final(self).ops@ == old(self).ops@.push(Op::ToAlt),
            final(self).work@ == old(self).work@.drop_last(),
            final(self).alt@ == old(self).alt@.push(old(self).work@.last()),
            final(self).ok@ == old(self).ok@,
    {
        let ghost w = self.work@;
        let ghost alt = self.alt@;
        let ghost n = w.len() - 1;
        let ghost x = seq![w[n]];
        proof {
            assert(w.take(n) + x =~= w);
            assert(alt + symbols::none() =~= alt);
            symbols::effect_aside(w[n]);
        }
        self.emit(
            Op::ToAlt,
            Ghost(w.take(n)),
            Ghost(x),
            Ghost(alt),
            Ghost(symbols::none()),
            Ghost(symbols::none()),
            Ghost(x),
        );
        assert(self.work@ =~= w.drop_last());
        assert(self.alt@ =~= alt.push(w.last()));
    }

    /// Moves the top of the alternative stack back.
    pub(crate) fn from_alt(&mut self)
        requires
            old(self).sound(),
            old(self).alt@.len() >= 1,
        ensures
            final(self).sound(),
            final(self).data@ == old(self).data@,
            final(self).ops@ == old(self).ops@.push(Op::FromAlt),
            final(self).work@ == old(self).work@.push(old(self).alt@.last()),
            final(self).alt@ == old(self).alt@.drop_last(),
            final(self).ok@ == old(self).ok@,
    {
        let ghost w = self.work@;
        let ghost alt = self.alt@;
        let ghost n = alt.len() - 1;
        let ghost x = seq![alt[n]];
        proof {
            assert(alt.take(n) + x =~= alt);
            assert(w + symbols::none() =~= w);
            symbols::effect_aside(alt[n]);
        }
        self.emit(
            Op::FromAlt,
            Ghost(w),
            Ghost(symbols::none()),
            Ghost(alt.take(n)),
            Ghost(x),
            Ghost(x),
            Ghost(symbols::none()),
        );
        assert(self.work@ =~= w.push(alt.last()));
        assert(self.alt@ =~= alt.drop_last());
    }

    /// Moves the low bits of the top to the alternative stack.
    pub(crate) fn low_bits(&mut self, n: usize)
        requires
            old(self).sound(),
            old(self).work@.len() >= 1,
        ensures
            final(self).sound(),
            final(self).data@ == old(self).data@,
            final(self).ops@ == old(self).ops@.push(Op::LowBits(n)),
            final(self).work@ == old(self).work@.drop_last(),
            final(self).alt@ == old(self).alt@ + symbols::low_bits(
                old(self).work@.last(),
                n as nat,
            ),
            final(self).ok@ == old(self).ok@,
    {
        let ghost w = self.work@;
        let ghost alt = self.alt@;
        let ghost m = w.len() - 1;
        let ghost x = seq![w[m]];
        let ghost r = symbols::low_bits(w[m], n as nat);
        proof {
            assert(w.take(m) + x =~= w);
            assert(alt + symbols::none() =~= alt);
            symbols::effect_base(w[m], n, 0, 0);
        }
        self.emit(
            Op::LowBits(n),
            Ghost(w.take(m)),
            Ghost(x),
            Ghost(alt),
            Ghost(symbols::none()),
            Ghost(symbols::none()),
            Ghost(r),
        );
        assert(self.work@ =~= w.drop_last());
    }

    /// Buries the top under a sponge state.
    pub(crate) fn sink(
        &mut self,
        Ghost(base): Ghost<Seq<Val>>,
        Ghost(state): Ghost<Seq<Val>>,
        Ghost(v): Ghost<Val>,
    )
        requires
            old(self).sound(),
            old(self).work@ == (base + state) + seq![v],
            state.len() == WIDTH,
        ensures
            final(self).sound(),
            final(self).data@ == old(self).data@,
            final(self).ops@.len() >= old(self).ops@.len(),
            script::census(final(self).ops@) == script::census(old(self).ops@),
            final(self).work@ == base.push(v) + state,
            final(self).alt@ == old(self).alt@,
            final(self).ok@ == old(self).ok@,
    {
        let mut j: usize = 0;
        assert(self.work@ =~= ((base + state.skip(0)) + seq![v]) + state.take(0));
        while j < WIDTH
            invariant
                j <= 16,
                state.len() == 16,
                self.sound(),
                self.work@ == ((base + state.skip(j as int)) + seq![v]) + state.take(j as int),
                self.alt@ == old(self).alt@,
                self.data@ == old(self).data@,
                self.ok@ == old(self).ok@,
                self.ops@.len() >= old(self).ops@.len(),
                script::census(self.ops@) == script::census(old(self).ops@),
            decreases 16 - j,
        {
            let ghost before = self.ops@;
            self.roll(WIDTH);
            j = j + 1;
            proof {
                script::lemma_census_push(before, Op::Roll(WIDTH));
            }
            assert(self.work@ =~= ((base + state.skip(j as int)) + seq![v]) + state.take(
                j as int,
            ));
        }
        assert(self.work@ =~= base.push(v) + state);
    }
}

} // verus!

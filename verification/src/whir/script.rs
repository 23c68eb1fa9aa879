//! The script programs of the verifier and what running them does.
//!
//! A program is a list of operations on a main stack and an alternative one,
//! both of field elements. Besides the plain stack operations there are the
//! arithmetic routines, each one step here: the permutation and the sponge's
//! reads, field and extension arithmetic, row hashing and Merkle paths, and the
//! verifier's interpolation, evaluation and weight routines.
//!
//! An extension element takes four slots, coefficient 0 deepest. Moved to the
//! alternative stack its coefficient 0 ends on top.
use super::model;
use super::sponge;
use crate::poseidon2::ext4;
use crate::poseidon2::ext4::Quad;
use crate::poseidon2::field;
use crate::poseidon2::reference as permutation;
use vstd::arithmetic::power2::pow2;
use vstd::prelude::*;

verus! {

/// An operation.
#[derive(Clone, Copy, Debug, PartialEq, Eq)]
pub enum Op {
    /// Pushes a number.
    Push(u32),
    /// Copies the element so many places below the top to the top.
    Pick(u128),
    /// Moves the element so many places below the top to the top.
    Roll(usize),
    Dup,
    Drop,
    TwoDrop,
    ToAlt,
    FromAlt,
    /// Adds the number to the element below the top if the top is not zero; drops
    /// the top.
    AddIf(u32),
    /// Requires the two on top to be equal; drops both.
    EqualVerify,
    LessThan,
    GreaterThanOrEqual,
    /// Requires the top not to be zero; drops it.
    Verify,
    /// The product of two base elements.
    FieldMul,
    /// The difference of two base elements.
    FieldSub,
    /// Moves the low bits of the top to the alternative stack, bit 0 last.
    LowBits(usize),
    /// Replaces an index of so many bits by that power of a constant.
    PowConst { gen: u32, bits: usize },
    /// Replaces a row of so many elements by its digest.
    HashRow(usize),
    /// Takes a root, a path of so many siblings, top level first, and a leaf, and
    /// the directions from the alternative stack, level 0 on top; requires the
    /// path to reach the root.
    MerkleVerify(usize),
    /// Absorbs so many elements above a sponge state and permutes it.
    Absorb(usize),
    /// Copies a slot of the sponge state on top.
    Sample(usize),
    /// The product of two extension elements.
    ExtMul,
    /// The sum of two extension elements.
    ExtAdd,
    ExtToAlt,
    ExtFromAlt,
    /// Drops so many extension elements.
    ExtDrop(usize),
    /// Replaces a claim, both coefficients and a challenge by the next claim.
    SumcheckRound,
    /// Replaces the evaluations over a cube of so many variables by the
    /// multilinear evaluation at the point on the alternative stack.
    EvalMultilinear(usize),
    /// Replaces a claim and a challenge by the claim with the answers on the
    /// alternative stack, numbered up to this one, combined in.
    CombineAnswers(u128),
    /// Moves the point of so many coordinates that expands the univariate one on
    /// top to the alternative stack.
    ExpandUnivariate(usize),
    /// Pushes the equality polynomial of the point on the alternative stack and of
    /// `n` elements on the main one, found below `under` others.
    EqEvalAt { n: usize, under: usize },
}

/// Both stacks, the tops last.
#[verifier::ext_equal]
pub struct Machine {
    pub main: Seq<int>,
    pub alt: Seq<int>,
}

/// How a run stands.
pub enum Outcome {
    Running(Machine),
    /// A requirement failed.
    Rejected,
    /// A stack ran out.
    Stuck,
}

/// A coefficient.
pub open spec fn coefficient(q: Quad, r: int) -> int {
    if r == 0 {
        q.a
    } else if r == 1 {
        q.b
    } else if r == 2 {
        q.c
    } else {
        q.d
    }
}

/// Extension elements on the main stack.
#[verifier::opaque]
pub open spec fn spread(qs: Seq<Quad>) -> Seq<int> {
    Seq::new(4 * qs.len(), |i: int| coefficient(qs[i / 4], i % 4))
}

/// Extension elements on the alternative stack.
#[verifier::opaque]
pub open spec fn alt_spread(qs: Seq<Quad>) -> Seq<int> {
    Seq::new(4 * qs.len(), |i: int| coefficient(qs[i / 4], 3 - i % 4))
}

/// The extension element at slot `i`.
pub open spec fn quad_at(s: Seq<int>, i: int) -> Quad {
    Quad { a: s[i], b: s[i + 1], c: s[i + 2], d: s[i + 3] }
}

/// The `n` extension elements from slot `i`.
#[verifier::opaque]
pub open spec fn elems(s: Seq<int>, i: int, n: nat) -> Seq<Quad> {
    Seq::new(n, |k: int| quad_at(s, i + 4 * k))
}

/// The `n` extension elements from slot `i` of the alternative stack.
#[verifier::opaque]
pub open spec fn alt_elems(s: Seq<int>, i: int, n: nat) -> Seq<Quad> {
    Seq::new(
        n,
        |k: int|
            Quad {
                a: s[i + 4 * k + 3],
                b: s[i + 4 * k + 2],
                c: s[i + 4 * k + 1],
                d: s[i + 4 * k],
            },
    )
}

/// How many slots they take.
pub broadcast proof fn lemma_spread_len(qs: Seq<Quad>)
    ensures
        #[trigger] spread(qs).len() == 4 * qs.len(),
{
    reveal(spread);
}

pub broadcast proof fn lemma_alt_spread_len(qs: Seq<Quad>)
    ensures
        #[trigger] alt_spread(qs).len() == 4 * qs.len(),
{
    reveal(alt_spread);
}

/// Bit `j` of a number.
pub open spec fn bit(v: int, j: nat) -> int {
    (v / (pow2(j) as int)) % 2
}

/// The low bits, bit 0 last.
pub open spec fn low_bits(v: int, n: nat) -> Seq<int> {
    Seq::new(n, |i: int| bit(v, (n - 1 - i) as nat))
}

/// The siblings of a path laid out top level first, as a list level 0 first.
pub open spec fn laid_siblings(s: Seq<int>, depth: nat) -> Seq<Seq<int>> {
    Seq::new(depth, |l: int| s.subrange(8 + 8 * (depth - 1 - l), 16 + 8 * (depth - 1 - l)))
}

/// The directions on the alternative stack, level 0 on top, as a list level 0
/// first.
pub open spec fn laid_directions(a: Seq<int>) -> Seq<bool> {
    Seq::new(a.len(), |l: int| a[a.len() - 1 - l] != 0)
}

/// The slots of the main stack an operation reads.
pub open spec fn needs(op: Op) -> nat {
    match op {
        Op::Push(_) => 0,
        Op::Pick(d) => (d + 1) as nat,
        Op::Roll(d) => (d + 1) as nat,
        Op::Dup => 1,
        Op::Drop => 1,
        Op::TwoDrop => 2,
        Op::ToAlt => 1,
        Op::FromAlt => 0,
        Op::AddIf(_) => 2,
        Op::EqualVerify => 2,
        Op::LessThan => 2,
        Op::GreaterThanOrEqual => 2,
        Op::Verify => 1,
        Op::FieldMul => 2,
        Op::FieldSub => 2,
        Op::LowBits(_) => 1,
        Op::PowConst { .. } => 1,
        Op::HashRow(n) => n as nat,
        Op::MerkleVerify(depth) => (8 * depth + 16) as nat,
        Op::Absorb(k) => (16 + k) as nat,
        Op::Sample(_) => 16,
        Op::ExtMul => 8,
        Op::ExtAdd => 8,
        Op::ExtToAlt => 4,
        Op::ExtFromAlt => 0,
        Op::ExtDrop(n) => (4 * n) as nat,
        Op::SumcheckRound => 16,
        Op::EvalMultilinear(n) => 4 * pow2(n as nat),
        Op::CombineAnswers(_) => 8,
        Op::ExpandUnivariate(_) => 4,
        Op::EqEvalAt { n, under } => (4 * (n + under)) as nat,
    }
}

/// The slots of the alternative stack an operation reads.
pub open spec fn needs_alt(op: Op) -> nat {
    match op {
        Op::FromAlt => 1,
        Op::MerkleVerify(depth) => depth as nat,
        Op::ExtFromAlt => 4,
        Op::EvalMultilinear(n) => (4 * n) as nat,
        Op::CombineAnswers(t) => (4 * (t + 1)) as nat,
        Op::EqEvalAt { n, .. } => (4 * n) as nat,
        _ => 0,
    }
}

/// What an operation makes of the slots it reads; nothing if its requirement
/// fails.
#[verifier::opaque]
pub open spec fn effect(op: Op, t: Seq<int>, a: Seq<int>) -> Option<(Seq<int>, Seq<int>)> {
    let none = Seq::<int>::empty();
    match op {
        Op::Push(n) => Some((seq![n as int], none)),
        Op::Pick(_) => Some((t.push(t[0]), none)),
        Op::Roll(_) => Some((t.skip(1).push(t[0]), none)),
        Op::Dup => Some((seq![t[0], t[0]], none)),
        Op::Drop => Some((none, none)),
        Op::TwoDrop => Some((none, none)),
        Op::ToAlt => Some((none, seq![t[0]])),
        Op::FromAlt => Some((seq![a[0]], none)),
        Op::AddIf(n) => Some(
            (
                seq![
                    if t[1] != 0 {
                        t[0] + n
                    } else {
                        t[0]
                    },
                ],
                none,
            ),
        ),
        Op::EqualVerify => if t[0] == t[1] {
            Some((none, none))
        } else {
            None
        },
        Op::LessThan => Some(
            (
                seq![
                    if t[0] < t[1] {
                        1int
                    } else {
                        0int
                    },
                ],
                none,
            ),
        ),
        Op::GreaterThanOrEqual => Some(
            (
                seq![
                    if t[0] >= t[1] {
                        1int
                    } else {
                        0int
                    },
                ],
                none,
            ),
        ),
        Op::Verify => if t[0] != 0 {
            Some((none, none))
        } else {
            None
        },
        Op::FieldMul => Some((seq![field::times(t[0], t[1])], none)),
        Op::FieldSub => Some((seq![field::minus(t[0], t[1])], none)),
        Op::LowBits(n) => Some((none, low_bits(t[0], n as nat))),
        Op::PowConst { gen, bits } => Some(
            (
                seq![field::power(gen as int, (t[0] % (pow2(bits as nat) as int)) as nat)],
                none,
            ),
        ),
        Op::HashRow(_) => Some((permutation::row_digest(t), none)),
        Op::MerkleVerify(depth) => if permutation::rooted(
            t.skip(8 * depth + 8),
            laid_siblings(t, depth as nat),
            laid_directions(a),
            depth as nat,
        ) == t.take(8) {
            Some((none, none))
        } else {
            None
        },
        Op::Absorb(_) => Some((sponge::permuted(t.take(16), t.skip(16)), none)),
        Op::Sample(slot) => Some((t.push(t[slot as int]), none)),
        Op::ExtMul => Some((spread(seq![ext4::times(quad_at(t, 0), quad_at(t, 4))]), none)),
        Op::ExtAdd => Some((spread(seq![ext4::plus(quad_at(t, 0), quad_at(t, 4))]), none)),
        Op::ExtToAlt => Some((none, alt_spread(seq![quad_at(t, 0)]))),
        Op::ExtFromAlt => Some((spread(alt_elems(a, 0, 1)), none)),
        Op::ExtDrop(_) => Some((none, none)),
        Op::SumcheckRound => Some(
            (
                spread(
                    seq![
                        model::sumcheck_step(
                            quad_at(t, 0),
                            quad_at(t, 4),
                            quad_at(t, 8),
                            quad_at(t, 12),
                        ),
                    ],
                ),
                none,
            ),
        ),
        Op::EvalMultilinear(n) => Some(
            (
                spread(
                    seq![
                        model::multilinear(
                            elems(t, 0, pow2(n as nat)),
                            alt_elems(a, 0, n as nat),
                        ),
                    ],
                ),
                none,
            ),
        ),
        Op::CombineAnswers(k) => Some(
            (
                spread(
                    seq![
                        model::weighted(
                            quad_at(t, 0),
                            quad_at(t, 4),
                            1,
                            alt_elems(a, 0, (k + 1) as nat),
                        ),
                    ],
                ),
                none,
            ),
        ),
        Op::ExpandUnivariate(m) => Some(
            (none, alt_spread(model::expanded(quad_at(t, 0), m as nat))),
        ),
        Op::EqEvalAt { n, .. } => Some(
            (
                t + spread(
                    seq![model::eq_at(alt_elems(a, 0, n as nat), elems(t, 0, n as nat))],
                ),
                none,
            ),
        ),
    }
}

/// Following a Merkle path.
pub proof fn effect_merkle(depth: usize, t: Seq<int>, a: Seq<int>)
    ensures
        effect(Op::MerkleVerify(depth), t, a) == (if permutation::rooted(
            t.skip(8 * depth + 8),
            laid_siblings(t, depth as nat),
            laid_directions(a),
            depth as nat,
        ) == t.take(8) {
            Some((Seq::<int>::empty(), Seq::<int>::empty()))
        } else {
            None
        }),
{
    reveal(effect);
}

/// One operation.
#[verifier::opaque]
pub open spec fn step(op: Op, m: Machine) -> Outcome {
    if m.main.len() < needs(op) || m.alt.len() < needs_alt(op) {
        Outcome::Stuck
    } else {
        let n = m.main.len() - needs(op);
        let k = m.alt.len() - needs_alt(op);
        match effect(op, m.main.skip(n), m.alt.skip(k)) {
            Some((t, a)) => Outcome::Running(
                Machine { main: m.main.take(n) + t, alt: m.alt.take(k) + a },
            ),
            None => Outcome::Rejected,
        }
    }
}

/// A program.
pub open spec fn run(ops: Seq<Op>, m: Machine) -> Outcome
    decreases ops.len(),
{
    if ops.len() == 0 {
        Outcome::Running(m)
    } else {
        match run(ops.drop_last(), m) {
            Outcome::Running(e) => step(ops.last(), e),
            stopped => stopped,
        }
    }
}

/// One operation on exactly the slots it reads, above others.
pub proof fn lemma_step(op: Op, base: Seq<int>, t: Seq<int>, alt_base: Seq<int>, a: Seq<int>)
    requires
        t.len() == needs(op),
        a.len() == needs_alt(op),
    ensures
        step(op, Machine { main: base + t, alt: alt_base + a }) == (match effect(op, t, a) {
            Some((u, b)) => Outcome::Running(Machine { main: base + u, alt: alt_base + b }),
            None => Outcome::Rejected,
        }),
{
    reveal(step);
    let m = Machine { main: base + t, alt: alt_base + a };
    assert(m.main.skip(base.len() as int) =~= t);
    assert(m.main.take(base.len() as int) =~= base);
    assert(m.alt.skip(alt_base.len() as int) =~= a);
    assert(m.alt.take(alt_base.len() as int) =~= alt_base);
}

/// One operation more.
pub proof fn lemma_run_push(ops: Seq<Op>, op: Op, m: Machine)
    ensures
        run(ops.push(op), m) == (match run(ops, m) {
            Outcome::Running(e) => step(op, e),
            stopped => stopped,
        }),
{
    assert(ops.push(op).drop_last() =~= ops);
}

/// Both stacks on top of others.
pub open spec fn on_top(main: Seq<int>, alt: Seq<int>, m: Machine) -> Machine {
    Machine { main: main + m.main, alt: alt + m.alt }
}

/// What lies below makes no difference to an operation.
pub proof fn lemma_step_frame(op: Op, main: Seq<int>, alt: Seq<int>, m: Machine)
    requires
        !(step(op, m) is Stuck),
    ensures
        step(op, on_top(main, alt, m)) == (match step(op, m) {
            Outcome::Running(e) => Outcome::Running(on_top(main, alt, e)),
            stopped => stopped,
        }),
{
    reveal(step);
    let f = on_top(main, alt, m);
    let n = m.main.len() - needs(op);
    let k = m.alt.len() - needs_alt(op);
    assert(f.main.skip(main.len() + n) =~= m.main.skip(n));
    assert(f.alt.skip(alt.len() + k) =~= m.alt.skip(k));
    assert(f.main.take(main.len() + n) =~= main + m.main.take(n));
    assert(f.alt.take(alt.len() + k) =~= alt + m.alt.take(k));
    if let Some((t, a)) = effect(op, m.main.skip(n), m.alt.skip(k)) {
        assert((main + m.main.take(n)) + t =~= main + (m.main.take(n) + t));
        assert((alt + m.alt.take(k)) + a =~= alt + (m.alt.take(k) + a));
    }
}

/// What lies below makes no difference to a program that does not run out.
pub proof fn law_frame(ops: Seq<Op>, main: Seq<int>, alt: Seq<int>, m: Machine)
    requires
        !(run(ops, m) is Stuck),
    ensures
        run(ops, on_top(main, alt, m)) == (match run(ops, m) {
            Outcome::Running(e) => Outcome::Running(on_top(main, alt, e)),
            stopped => stopped,
        }),
    decreases ops.len(),
{
    if ops.len() > 0 {
        law_frame(ops.drop_last(), main, alt, m);
        if let Outcome::Running(e) = run(ops.drop_last(), m) {
            lemma_step_frame(ops.last(), main, alt, e);
        }
    }
}

/// One program after another.
pub proof fn law_run_append(first: Seq<Op>, second: Seq<Op>, m: Machine)
    ensures
        run(first + second, m) == (match run(first, m) {
            Outcome::Running(e) => run(second, e),
            stopped => stopped,
        }),
    decreases second.len(),
{
    if second.len() == 0 {
        assert(first + second =~= first);
    } else {
        law_run_append(first, second.drop_last(), m);
        assert((first + second).drop_last() =~= first + second.drop_last());
        assert((first + second).last() == second.last());
    }
}

// ---------------------------------------------------------------------------
// Reading what was spread.
// ---------------------------------------------------------------------------

/// One slot of an extension element.
pub proof fn lemma_slot(qs: Seq<Quad>, k: int, r: int)
    requires
        0 <= k < qs.len(),
        0 <= r < 4,
    ensures
        spread(qs)[4 * k + r] == coefficient(qs[k], r),
        alt_spread(qs)[4 * k + r] == coefficient(qs[k], 3 - r),
{
    broadcast use {lemma_spread_len, lemma_alt_spread_len};

    reveal(spread);
    reveal(alt_spread);
    assert((4 * k + r) / 4 == k && (4 * k + r) % 4 == r);
}

/// An extension element on a stack.
pub proof fn lemma_one(q: Quad)
    ensures
        spread(seq![q]).len() == 4,
        spread(seq![q]) == seq![q.a, q.b, q.c, q.d],
        quad_at(spread(seq![q]), 0) == q,
{
    broadcast use lemma_spread_len;

    lemma_slot(seq![q], 0, 0);
    lemma_slot(seq![q], 0, 1);
    lemma_slot(seq![q], 0, 2);
    lemma_slot(seq![q], 0, 3);
    assert(spread(seq![q]) =~= seq![q.a, q.b, q.c, q.d]);
}

/// Reading an extension element back.
pub proof fn lemma_read(base: Seq<int>, qs: Seq<Quad>, k: int)
    requires
        0 <= k < qs.len(),
    ensures
        quad_at(base + spread(qs), base.len() + 4 * k) == qs[k],
{
    broadcast use {lemma_spread_len, lemma_alt_spread_len};

    let s = base + spread(qs);
    let n = base.len() as int;
    lemma_slot(qs, k, 0);
    lemma_slot(qs, k, 1);
    lemma_slot(qs, k, 2);
    lemma_slot(qs, k, 3);
    assert(s[n + 4 * k] == spread(qs)[4 * k]);
    assert(s[n + 4 * k + 1] == spread(qs)[4 * k + 1]);
    assert(s[n + 4 * k + 2] == spread(qs)[4 * k + 2]);
    assert(s[n + 4 * k + 3] == spread(qs)[4 * k + 3]);
}

/// Reading extension elements back from the alternative stack.
pub proof fn lemma_alt_spread(qs: Seq<Quad>)
    ensures
        alt_elems(alt_spread(qs), 0, qs.len()) == qs,
{
    broadcast use {lemma_spread_len, lemma_alt_spread_len};

    reveal(alt_elems);
    let r = alt_elems(alt_spread(qs), 0, qs.len());
    assert forall|k: int| 0 <= k < qs.len() implies r[k] == qs[k] by {
        lemma_slot(qs, k, 0);
        lemma_slot(qs, k, 1);
        lemma_slot(qs, k, 2);
        lemma_slot(qs, k, 3);
    }
    assert(r =~= qs);
}

/// One element more.
pub proof fn lemma_spread_push(qs: Seq<Quad>, q: Quad)
    ensures
        spread(qs.push(q)) == spread(qs) + spread(seq![q]),
        alt_spread(qs.push(q)) == alt_spread(qs) + alt_spread(seq![q]),
{
    broadcast use {lemma_spread_len, lemma_alt_spread_len};

    let all = qs.push(q);
    let n = 4 * qs.len();
    assert forall|i: int| 0 <= i < n + 4 implies #[trigger] spread(all)[i] == (spread(qs) + spread(
        seq![q],
    ))[i] && alt_spread(all)[i] == (alt_spread(qs) + alt_spread(seq![q]))[i] by {
        let (k, r) = (i / 4, i % 4);
        assert(i == 4 * k + r);
        lemma_slot(all, k, r);
        if i < n {
            lemma_slot(qs, k, r);
        } else {
            lemma_slot(seq![q], 0, r);
        }
    }
    assert(spread(all) =~= spread(qs) + spread(seq![q]));
    assert forall|i: int| 0 <= i < n + 4 implies #[trigger] alt_spread(all)[i] == (alt_spread(qs)
        + alt_spread(seq![q]))[i] by {
        assert(spread(all)[i] == (spread(qs) + spread(seq![q]))[i]);
    }
    assert(alt_spread(all) =~= alt_spread(qs) + alt_spread(seq![q]));
}

/// How often a program does the steps that a verification rests on.
pub struct Census {
    pub absorbs: nat,
    pub samples: nat,
    pub hashes: nat,
    pub walks: nat,
    pub sumchecks: nat,
}

/// What one operation counts for.
pub open spec fn tally(op: Op) -> Census {
    Census {
        absorbs: if op is Absorb {
            1
        } else {
            0
        },
        samples: if op is Sample {
            1
        } else {
            0
        },
        hashes: if op is HashRow {
            1
        } else {
            0
        },
        walks: if op is MerkleVerify {
            1
        } else {
            0
        },
        sumchecks: if op is SumcheckRound {
            1
        } else {
            0
        },
    }
}

pub open spec fn together(a: Census, b: Census) -> Census {
    Census {
        absorbs: a.absorbs + b.absorbs,
        samples: a.samples + b.samples,
        hashes: a.hashes + b.hashes,
        walks: a.walks + b.walks,
        sumchecks: a.sumchecks + b.sumchecks,
    }
}

/// So many sumcheck rounds.
pub open spec fn folded(n: nat) -> Census {
    Census { absorbs: 0, samples: 0, hashes: 0, walks: 0, sumchecks: n }
}

/// So many rows hashed and walked to a root.
pub open spec fn walked(n: nat) -> Census {
    Census { absorbs: 0, samples: 0, hashes: n, walks: n, sumchecks: 0 }
}

/// The census of a program.
#[verifier::opaque]
pub open spec fn census(ops: Seq<Op>) -> Census
    decreases ops.len(),
{
    if ops.len() == 0 {
        Census { absorbs: 0, samples: 0, hashes: 0, walks: 0, sumchecks: 0 }
    } else {
        together(census(ops.drop_last()), tally(ops.last()))
    }
}

pub broadcast proof fn lemma_census_push(ops: Seq<Op>, op: Op)
    ensures
        #[trigger] census(ops.push(op)) == together(census(ops), tally(op)),
{
    reveal(census);
    assert(ops.push(op).drop_last() =~= ops);
}

} // verus!

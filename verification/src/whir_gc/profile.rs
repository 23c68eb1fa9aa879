//! Non-free gates by phase: where a circuit's size goes.
use super::gates::CircuitTrait;
use super::netlist;
use super::netlist::{Netlist, Operation};
use vstd::prelude::*;

verus! {

/// What a stretch of gates is for.
#[derive(Clone, Copy, Debug, PartialEq, Eq, Structural)]
pub enum Phase {
    LeafHashes,
    MerklePaths,
    CapSelection,
    QueryFolds,
    Transcript,
    InitialClaim,
    SumcheckRounds,
    QueryPoints,
    ClaimCombination,
    FinalPolynomial,
    ClosingEqWeights,
    ClosingQueryWeights,
    ClosingIdentity,
    ZerocheckSumcheck,
    StarkTranscript,
    AirConstraints,
    ZerocheckClosing,
    ColumnCombination,
    RingSwitchStatement,
    RingSwitchClosing,
}

impl Phase {
    /// The phase's name in a printed profile.
    pub fn name(self) -> (s: &'static str)
        ensures
            s@ == self.title(),
    {
        match self {
            Phase::LeafHashes => "leaf hashes",
            Phase::MerklePaths => "merkle paths",
            Phase::CapSelection => "cap selection",
            Phase::QueryFolds => "query folds",
            Phase::Transcript => "transcript (sponge)",
            Phase::InitialClaim => "initial claim",
            Phase::SumcheckRounds => "sumcheck rounds",
            Phase::QueryPoints => "query points",
            Phase::ClaimCombination => "claim combination",
            Phase::FinalPolynomial => "final polynomial at queries",
            Phase::ClosingEqWeights => "closing eq weights",
            Phase::ClosingQueryWeights => "closing query weights",
            Phase::ClosingIdentity => "closing identity",
            Phase::ZerocheckSumcheck => "zerocheck sumcheck",
            Phase::StarkTranscript => "stark transcript (sponge)",
            Phase::AirConstraints => "air constraints",
            Phase::ZerocheckClosing => "zerocheck closing",
            Phase::ColumnCombination => "column combination",
            Phase::RingSwitchStatement => "ring switch statement",
            Phase::RingSwitchClosing => "ring switch closing",
        }
    }

    pub open spec fn title(self) -> Seq<char> {
        match self {
            Phase::LeafHashes => "leaf hashes"@,
            Phase::MerklePaths => "merkle paths"@,
            Phase::CapSelection => "cap selection"@,
            Phase::QueryFolds => "query folds"@,
            Phase::Transcript => "transcript (sponge)"@,
            Phase::InitialClaim => "initial claim"@,
            Phase::SumcheckRounds => "sumcheck rounds"@,
            Phase::QueryPoints => "query points"@,
            Phase::ClaimCombination => "claim combination"@,
            Phase::FinalPolynomial => "final polynomial at queries"@,
            Phase::ClosingEqWeights => "closing eq weights"@,
            Phase::ClosingQueryWeights => "closing query weights"@,
            Phase::ClosingIdentity => "closing identity"@,
            Phase::ZerocheckSumcheck => "zerocheck sumcheck"@,
            Phase::StarkTranscript => "stark transcript (sponge)"@,
            Phase::AirConstraints => "air constraints"@,
            Phase::ZerocheckClosing => "zerocheck closing"@,
            Phase::ColumnCombination => "column combination"@,
            Phase::RingSwitchStatement => "ring switch statement"@,
            Phase::RingSwitchClosing => "ring switch closing"@,
        }
    }
}

/// The gates that are not free.
pub open spec fn non_free(c: Netlist) -> nat {
    netlist::ands(c.gates) + netlist::ors(c.gates)
}

proof fn lemma_prefix_counts(a: Seq<Operation>, b: Seq<Operation>)
    requires
        a.len() <= b.len(),
        b.take(a.len() as int) == a,
    ensures
        netlist::ands(a) <= netlist::ands(b),
        netlist::ors(a) <= netlist::ors(b),
    decreases b.len(),
{
    if a.len() == b.len() {
        assert(b.take(a.len() as int) =~= b);
    } else {
        assert(b.drop_last().take(a.len() as int) =~= b.take(a.len() as int));
        lemma_prefix_counts(a, b.drop_last());
    }
}

/// Emitting gates takes none away.
pub proof fn lemma_non_free_grows(a: Netlist, b: Netlist)
    requires
        netlist::ext(a, b),
    ensures
        non_free(a) <= non_free(b),
{
    reveal(netlist::ext);
    lemma_prefix_counts(a.gates, b.gates);
}

proof fn lemma_non_free_bound(gates: Seq<Operation>)
    ensures
        netlist::ands(gates) + netlist::ors(gates) <= gates.len(),
    decreases gates.len(),
{
    if gates.len() > 0 {
        lemma_non_free_bound(gates.drop_last());
    }
}

/// A well-formed netlist has fewer gates than wires.
proof fn lemma_gates_bound(c: Netlist, k: nat)
    requires
        netlist::wf(c),
        k <= c.gates.len(),
    ensures
        k > 0 ==> k < c.gates[k - 1].out(),
        k <= c.next,
    decreases k,
{
    if k > 1 {
        lemma_gates_bound(c, (k - 1) as nat);
        assert(c.gates[k - 2].out() < c.gates[k - 1].out());
    }
    if k > 0 {
        assert(2 <= c.gates[k - 1].out() < c.next);
    }
}

/// Everything charged.
pub open spec fn charged(phases: Seq<(Phase, usize)>) -> nat
    decreases phases.len(),
{
    if phases.len() == 0 {
        0
    } else {
        charged(phases.drop_last()) + phases.last().1 as nat
    }
}

/// What is charged to one phase.
pub open spec fn charged_to(phases: Seq<(Phase, usize)>, p: Phase) -> nat
    decreases phases.len(),
{
    if phases.len() == 0 {
        0
    } else {
        charged_to(phases.drop_last(), p) + if phases.last().0 == p {
            phases.last().1 as nat
        } else {
            0
        }
    }
}

proof fn lemma_charge_update(phases: Seq<(Phase, usize)>, i: int, v: usize)
    requires
        0 <= i < phases.len(),
    ensures
        charged(phases.update(i, (phases[i].0, v))) == charged(phases) - phases[i].1 + v,
        forall|p: Phase| #[trigger]
            charged_to(phases.update(i, (phases[i].0, v)), p) == charged_to(phases, p) + if p
                == phases[i].0 {
                v - phases[i].1
            } else {
                0
            },
    decreases phases.len(),
{
    let after = phases.update(i, (phases[i].0, v));
    if i == phases.len() - 1 {
        assert(after.drop_last() =~= phases.drop_last());
    } else {
        lemma_charge_update(phases.drop_last(), i, v);
        assert(after.drop_last() =~= phases.drop_last().update(i, (phases[i].0, v)));
    }
    assert forall|p: Phase| #[trigger]
        charged_to(after, p) == charged_to(phases, p) + if p == phases[i].0 {
            v - phases[i].1
        } else {
            0
        } by {
        if i < phases.len() - 1 {
            assert(charged_to(after.drop_last(), p) == charged_to(phases.drop_last(), p) + if p
                == phases[i].0 {
                v - phases[i].1
            } else {
                0
            });
        } else {
            assert(charged_to(after.drop_last(), p) == charged_to(phases.drop_last(), p));
        }
    }
}

proof fn lemma_entry_bound(phases: Seq<(Phase, usize)>, i: int)
    requires
        0 <= i < phases.len(),
    ensures
        phases[i].1 <= charged(phases),
    decreases phases.len(),
{
    if i < phases.len() - 1 {
        lemma_entry_bound(phases.drop_last(), i);
    }
}

/// No phase has two entries.
pub open spec fn distinct(phases: Seq<(Phase, usize)>) -> bool {
    forall|i: int, j: int|
        0 <= i < j < phases.len() ==> (#[trigger] phases[i]).0 != (#[trigger] phases[j]).0
}

/// Names repeat across rounds and are summed.
#[derive(Clone, Debug)]
pub struct Profile {
    pub phases: Vec<(Phase, usize)>,
    /// The non-free gates at the last mark.
    pub last: usize,
}

impl Default for Profile {
    fn default() -> (p: Self)
        ensures
            p.phases@ == Seq::<(Phase, usize)>::empty(),
            forall|c: Netlist| #[trigger] p.wf(c),
            p.last == 0,
    {
        let p = Profile { phases: Vec::new(), last: 0 };
        assert(p.phases@ =~= Seq::<(Phase, usize)>::empty());
        p
    }
}

impl Profile {
    /// Every non-free gate up to the last mark is charged, each phase in one entry,
    /// and the circuit has at least those.
    pub open spec fn wf(self, c: Netlist) -> bool {
        &&& distinct(self.phases@)
        &&& charged(self.phases@) == self.last
        &&& self.last <= non_free(c)
    }

    /// Charge the non-free gates since the last mark to `phase`.
    pub(crate) fn mark<T: CircuitTrait>(&mut self, b: &T, phase: Phase)
        requires
            b.inv(),
            old(self).wf(b@),
        ensures
            final(self).wf(b@),
            final(self).last == non_free(b@),
            charged(final(self).phases@) == non_free(b@),
            forall|p: Phase| #[trigger]
                charged_to(final(self).phases@, p) == charged_to(old(self).phases@, p) + if p
                    == phase {
                    non_free(b@) - old(self).last
                } else {
                    0
                },
    {
        proof {
            b.lemma_inv();
            lemma_non_free_bound(b@.gates);
            lemma_gates_bound(b@, b@.gates.len());
        }
        let counts = b.gate_counts();
        let now = counts.non_free();
        let delta = now - self.last;
        self.last = now;
        let ghost before = self.phases@;
        let mut i: usize = 0;
        while i < self.phases.len()
            invariant
                self.phases@ == before,
                *self == (Profile { phases: self.phases, last: now }),
                now == non_free(b@),
                charged(before) + delta == now,
                charged(before) == old(self).last,
                before == old(self).phases@,
                distinct(before),
                i <= before.len(),
                forall|k: int| 0 <= k < i ==> (#[trigger] before[k]).0 != phase,
            decreases self.phases@.len() - i,
        {
            if self.phases[i].0 == phase {
                let v = self.phases[i].1;
                proof {
                    lemma_entry_bound(before, i as int);
                    lemma_charge_update(before, i as int, (v + delta) as usize);
                }
                self.phases.set(i, (phase, v + delta));
                return;
            }
            i = i + 1;
        }
        self.phases.push((phase, delta));
        assert(self.phases@.drop_last() =~= before);
    }

    /// Everything charged.
    pub fn total(&self) -> (n: usize)
        requires
            charged(self.phases@) <= usize::MAX,
        ensures
            n == charged(self.phases@),
    {
        let mut n: usize = 0;
        let mut i: usize = 0;
        assert(self.phases@.take(0) =~= Seq::<(Phase, usize)>::empty());
        while i < self.phases.len()
            invariant
                i <= self.phases@.len(),
                n == charged(self.phases@.take(i as int)),
                charged(self.phases@) <= usize::MAX,
            decreases self.phases@.len() - i,
        {
            proof {
                assert(self.phases@.take(i + 1).drop_last() =~= self.phases@.take(i as int));
                lemma_charged_prefix(self.phases@, i + 1);
            }
            n = n + self.phases[i].1;
            i = i + 1;
        }
        assert(self.phases@.take(i as int) =~= self.phases@);
        n
    }
}

proof fn lemma_charged_prefix(phases: Seq<(Phase, usize)>, k: int)
    requires
        0 <= k <= phases.len(),
    ensures
        charged(phases.take(k)) <= charged(phases),
    decreases phases.len() - k,
{
    if k == phases.len() {
        assert(phases.take(k) =~= phases);
    } else {
        lemma_charged_prefix(phases, k + 1);
        assert(phases.take(k + 1).drop_last() =~= phases.take(k));
    }
}

/// A profile keeps its meaning as the circuit grows.
pub broadcast proof fn lemma_profile_ext(p: Profile, a: Netlist, b: Netlist)
    requires
        #[trigger] p.wf(a),
        #[trigger] netlist::ext(a, b),
    ensures
        p.wf(b),
{
    lemma_non_free_grows(a, b);
}

} // verus!

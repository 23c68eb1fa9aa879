//! How the constraints of a row are batched into one value.
use super::field;
use super::field::Elt;
use super::honest::Binary;
use super::stark::Air;
use super::stark_model;
use super::stark_model::BoundaryM;
use crate::multilinear;
use crate::multilinear::Algebra;
use vstd::prelude::*;

verus! {

/// `x^k`.
pub open spec fn power(x: Elt, k: nat) -> Elt
    decreases k,
{
    if k == 0 {
        field::one128()
    } else {
        field::times(power(x, (k - 1) as nat), x)
    }
}

proof fn lemma_power_len(x: Elt, k: nat)
    requires
        x.len() == 128,
    ensures
        power(x, k).len() == 128,
    decreases k,
{
    field::lemma_level_128();
    if k > 0 {
        lemma_power_len(x, (k - 1) as nat);
        field::lemma_times_len(power(x, (k - 1) as nat), x);
    }
}

/// The first `k` of the values `vs`, each times its power of `alpha`: the last of the
/// values has power 0.
pub open spec fn power_sum(vs: Seq<Elt>, alpha: Elt, k: nat) -> Elt
    decreases k,
{
    if k == 0 {
        field::zero128()
    } else {
        field::plus(
            power_sum(vs, alpha, (k - 1) as nat),
            field::times(vs[k - 1], power(alpha, (vs.len() - k) as nat)),
        )
    }
}

/// With one value more, all the earlier ones gain a power.
proof fn lemma_power_sum_shifts(vs: Seq<Elt>, v: Elt, alpha: Elt, k: nat)
    requires
        multilinear::point::<Binary>(vs),
        alpha.len() == 128,
        k <= vs.len(),
    ensures
        power_sum(vs.push(v), alpha, k) == field::times(power_sum(vs, alpha, k), alpha),
        power_sum(vs, alpha, k).len() == 128,
    decreases k,
{
    field::lemma_level_128();
    if k == 0 {
        field::law_times_comm(field::zero128(), alpha);
        field::lemma_times_zero(alpha);
    } else {
        lemma_power_sum_shifts(vs, v, alpha, (k - 1) as nat);
        let e = (vs.len() - k) as nat;
        let x = vs[k - 1];
        assert(Binary::has(x));
        lemma_power_len(alpha, e);
        field::lemma_times_len(x, power(alpha, e));
        field::law_times_assoc(x, power(alpha, e), alpha);
        field::law_distribute_left(
            power_sum(vs, alpha, (k - 1) as nat),
            field::times(x, power(alpha, e)),
            alpha,
        );
        assert(vs.push(v)[k - 1] == x);
        assert((vs.push(v).len() - k) as nat == e + 1);
    }
}

/// The values of the first `n` constraints.
pub open spec fn constraint_values(
    air: Air,
    local: Seq<Elt>,
    next: Seq<Elt>,
    b: BoundaryM,
    n: nat,
) -> Seq<Elt> {
    Seq::new(
        n,
        |i: int|
            stark_model::expr_value(air.nodes@, local, next, b, air.constraints@[i] as nat),
    )
}

proof fn lemma_horner(
    air: Air,
    local: Seq<Elt>,
    next: Seq<Elt>,
    b: BoundaryM,
    alpha: Elt,
    n: nat,
)
    requires
        multilinear::point::<Binary>(constraint_values(air, local, next, b, n)),
        alpha.len() == 128,
    ensures
        stark_model::air_horner(air, local, next, b, alpha, n) == power_sum(
            constraint_values(air, local, next, b, n),
            alpha,
            n,
        ),
    decreases n,
{
    field::lemma_level_128();
    if n > 0 {
        let vs = constraint_values(air, local, next, b, n);
        let front = constraint_values(air, local, next, b, (n - 1) as nat);
        assert(vs =~= front.push(vs.last()));
        assert forall|i: int| 0 <= i < front.len() implies Binary::has(#[trigger] front[i]) by {
            assert(Binary::has(vs[i]));
        }
        lemma_horner(air, local, next, b, alpha, (n - 1) as nat);
        lemma_power_sum_shifts(front, vs.last(), alpha, (n - 1) as nat);
        assert(Binary::has(vs[n - 1]));
        field::law_times_one(vs.last());
    }
}

/// The constraints are batched by powers of `alpha`: every one counts, each with a
/// power of its own, the last with the power 0.
pub proof fn law_every_constraint_is_batched(
    air: Air,
    local: Seq<Elt>,
    next: Seq<Elt>,
    b: BoundaryM,
    alpha: Elt,
)
    requires
        multilinear::point::<Binary>(
            constraint_values(air, local, next, b, air.constraints@.len()),
        ),
        alpha.len() == 128,
    ensures
        stark_model::air_at(air, local, next, b, alpha) == power_sum(
            constraint_values(air, local, next, b, air.constraints@.len()),
            alpha,
            air.constraints@.len(),
        ),
{
    lemma_horner(air, local, next, b, alpha, air.constraints@.len());
}

} // verus!

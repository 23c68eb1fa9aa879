//! The verifier's arithmetic as mathematics: interpolation, multilinear
//! evaluation, the equality and select weights, and batched sums.
use crate::poseidon2::ext4;
use crate::poseidon2::ext4::Quad;
use crate::poseidon2::field;
use vstd::prelude::*;

verus! {

/// The Lagrange weights of `0`, `1` and infinity at `r`: `1 - r`, `r` and
/// `r (r - 1)`.
pub open spec fn lagrange(r: Quad) -> (Quad, Quad, Quad) {
    (ext4::minus(ext4::one(), r), r, ext4::times(r, ext4::minus(r, ext4::one())))
}

/// The value at `r` of the quadratic through `e0` at 0 and `e1` at 1 with leading
/// coefficient `e_inf`.
pub open spec fn extrapolated(e0: Quad, e1: Quad, e_inf: Quad, r: Quad) -> Quad {
    let (w0, w1, w_inf) = lagrange(r);
    ext4::plus(ext4::plus(ext4::times(e0, w0), ext4::times(e1, w1)), ext4::times(e_inf, w_inf))
}

/// One sumcheck round: `h(1)` comes from the claim, the new claim is `h(r)`.
pub open spec fn sumcheck_step(claim: Quad, c0: Quad, c_inf: Quad, r: Quad) -> Quad {
    extrapolated(c0, ext4::minus(claim, c0), c_inf, r)
}

/// A table of evaluations with its last variable fixed to `x`.
pub open spec fn halved(table: Seq<Quad>, x: Quad) -> Seq<Quad> {
    Seq::new(
        table.len() / 2,
        |j: int|
            ext4::plus(
                table[2 * j],
                ext4::times(x, ext4::minus(table[2 * j + 1], table[2 * j])),
            ),
    )
}

/// The multilinear polynomial with evaluations `table` over the hypercube, first
/// variable most significant, at `point`.
pub open spec fn multilinear(table: Seq<Quad>, point: Seq<Quad>) -> Quad
    decreases point.len(),
{
    if point.len() == 0 {
        table[0]
    } else {
        multilinear(halved(table, point.last()), point.drop_last())
    }
}

/// `a b + (1 - a)(1 - b)`.
pub open spec fn eq_factor(a: Quad, b: Quad) -> Quad {
    ext4::plus(
        ext4::times(a, b),
        ext4::times(ext4::minus(ext4::one(), a), ext4::minus(ext4::one(), b)),
    )
}

/// `eq(z, r)`, the product of [`eq_factor`] over matching coordinates.
pub open spec fn eq_at(z: Seq<Quad>, r: Seq<Quad>) -> Quad
    decreases z.len(),
{
    if z.len() == 0 {
        ext4::one()
    } else {
        ext4::times(eq_at(z.drop_last(), r.drop_last()), eq_factor(z.last(), r.last()))
    }
}

/// `u^(2^k)`.
pub open spec fn squared(u: Quad, k: nat) -> Quad
    decreases k,
{
    if k == 0 {
        u
    } else {
        let s = squared(u, (k - 1) as nat);
        ext4::times(s, s)
    }
}

/// `[u^(2^(m-1)), .., u^2, u]`: the point whose `eq` picks the univariate
/// evaluation at `u`.
pub open spec fn expanded(u: Quad, m: nat) -> Seq<Quad> {
    Seq::new(m, |i: int| squared(u, (m - 1 - i) as nat))
}

/// `base + sum_i chi^(shift + i) e_i`.
pub open spec fn weighted(base: Quad, chi: Quad, shift: nat, evals: Seq<Quad>) -> Quad
    decreases evals.len(),
{
    if evals.len() == 0 {
        base
    } else {
        ext4::plus(
            weighted(base, chi, shift, evals.drop_last()),
            ext4::times(
                ext4::power(chi, shift + (evals.len() - 1) as nat),
                evals.last(),
            ),
        )
    }
}

/// `r (var - 1) + 1`.
pub open spec fn select_factor(var: int, r: Quad) -> Quad {
    ext4::plus(ext4::times(r, ext4::lifted(field::minus(var, 1))), ext4::one())
}

/// `acc` times the multilinear extension of `b -> var^b` at `point`, the last
/// coordinate weighing `var` and each one before it the square of the next.
pub open spec fn selected(acc: Quad, var: int, point: Seq<Quad>) -> Quad
    decreases point.len(),
{
    if point.len() == 0 {
        acc
    } else {
        selected(
            ext4::times(acc, select_factor(var, point.last())),
            field::times(var, var),
            point.drop_last(),
        )
    }
}

/// `sum_j c_j var^j`.
pub open spec fn horner(coeffs: Seq<Quad>, var: int) -> Quad
    decreases coeffs.len(),
{
    if coeffs.len() == 0 {
        ext4::zero()
    } else {
        ext4::plus(
            ext4::times(horner(coeffs.drop_first(), var), ext4::lifted(var)),
            coeffs[0],
        )
    }
}

/// The last `n` coordinates.
pub open spec fn suffix(point: Seq<Quad>, n: nat) -> Seq<Quad> {
    point.skip(point.len() - n)
}

/// The first `k` rounds of a sumcheck with messages `polys` and challenges `rs`.
pub open spec fn sumcheck_claim(claim: Quad, polys: Seq<(Quad, Quad)>, rs: Seq<Quad>, k: nat) -> Quad
    decreases k,
{
    if k == 0 {
        claim
    } else {
        sumcheck_step(
            sumcheck_claim(claim, polys, rs, (k - 1) as nat),
            polys[k - 1].0,
            polys[k - 1].1,
            rs[k - 1],
        )
    }
}

/// Combining two lists is combining one after the other.
pub proof fn law_weighted_append(base: Quad, chi: Quad, shift: nat, a: Seq<Quad>, b: Seq<Quad>)
    ensures
        weighted(base, chi, shift, a + b) == weighted(
            weighted(base, chi, shift, a),
            chi,
            shift + a.len(),
            b,
        ),
    decreases b.len(),
{
    if b.len() == 0 {
        assert(a + b =~= a);
    } else {
        law_weighted_append(base, chi, shift, a, b.drop_last());
        assert((a + b).drop_last() =~= a + b.drop_last());
        assert((a + b).last() == b.last());
    }
}

/// `((e_{n-1} chi + e_{n-2}) chi + ..) chi + e_0`.
pub open spec fn nested(chi: Quad, evals: Seq<Quad>) -> Quad
    decreases evals.len(),
{
    if evals.len() <= 1 {
        evals[0]
    } else {
        ext4::plus(ext4::times(nested(chi, evals.drop_first()), chi), evals[0])
    }
}

/// Nesting multiplications is weighing by powers.
pub proof fn law_nested(base: Quad, chi: Quad, shift: nat, evals: Seq<Quad>)
    requires
        evals.len() > 0,
    ensures
        weighted(base, chi, shift, evals) == ext4::plus(
            base,
            ext4::times(ext4::power(chi, shift), nested(chi, evals)),
        ),
    decreases evals.len(),
{
    let p = ext4::power(chi, shift);
    if evals.len() == 1 {
        assert(weighted(base, chi, shift, evals.drop_last()) == base);
    } else {
        let (e, rest) = (evals[0], evals.drop_first());
        assert(evals =~= seq![e] + rest);
        law_weighted_append(base, chi, shift, seq![e], rest);
        assert(weighted(base, chi, shift, seq![e].drop_last()) == base);
        assert(weighted(base, chi, shift, seq![e]) == ext4::plus(base, ext4::times(p, e)));
        law_nested(ext4::plus(base, ext4::times(p, e)), chi, shift + 1, rest);
        let n = nested(chi, rest);
        let q = ext4::power(chi, shift + 1);
        ext4::law_times_distributes(ext4::times(n, chi), e, p);
        ext4::law_times_commutes(n, chi);
        ext4::law_times_associates(p, chi, n);
        ext4::law_times_commutes(p, chi);
        assert(ext4::times(p, ext4::times(n, chi)) == ext4::times(q, n));
        ext4::law_plus_associates(base, ext4::times(p, e), ext4::times(q, n));
        ext4::law_plus_commutes(ext4::times(p, e), ext4::times(q, n));
    }
}

/// Nesting gives a canonical element if it starts from one.
pub proof fn lemma_nested_canonical(chi: Quad, evals: Seq<Quad>)
    requires
        evals.len() > 0,
        evals.len() == 1 ==> ext4::canonical(evals[0]),
    ensures
        ext4::canonical(nested(chi, evals)),
{
    if evals.len() > 1 {
        ext4::law_canonical(ext4::times(nested(chi, evals.drop_first()), chi), evals[0]);
    }
}

/// Weighing from power 0 without a base.
pub proof fn law_batched(chi: Quad, evals: Seq<Quad>)
    requires
        evals.len() > 0,
        evals.len() == 1 ==> ext4::canonical(evals[0]),
    ensures
        weighted(ext4::zero(), chi, 0, evals) == nested(chi, evals),
{
    law_nested(ext4::zero(), chi, 0, evals);
    lemma_nested_canonical(chi, evals);
    ext4::law_times_one(nested(chi, evals));
    ext4::law_plus_zero(nested(chi, evals));
}

/// Weighing from power 1.
pub proof fn law_combined(base: Quad, chi: Quad, evals: Seq<Quad>)
    requires
        evals.len() > 0,
    ensures
        weighted(base, chi, 1, evals) == ext4::plus(base, ext4::times(nested(chi, evals), chi)),
{
    law_nested(base, chi, 1, evals);
    let n = nested(chi, evals);
    let one = ext4::one();
    reveal_with_fuel(ext4::power, 2);
    ext4::law_times_commutes(one, chi);
    ext4::law_times_associates(one, chi, n);
    ext4::law_canonical(chi, n);
    ext4::law_times_one(ext4::times(chi, n));
    ext4::law_times_commutes(chi, n);
}

} // verus!

//! The verifier's arithmetic on machine words.
use super::model;
use crate::poseidon2::constants::P;
use crate::poseidon2::ext4;
use crate::poseidon2::ext4::Quad;
use crate::poseidon2::field;
use vstd::arithmetic::power2::{lemma_pow2_unfold, pow2};
use vstd::prelude::*;

verus! {

/// The extension element `1`.
pub const EF_ONE: [u32; 4] = [1, 0, 0, 0];

/// The extension element `0`.
pub const EF_ZERO: [u32; 4] = [0, 0, 0, 0];

/// The base element `x` in the extension.
pub(crate) fn lift(x: u32) -> (r: [u32; 4])
    ensures
        ext4::quad(r@) == ext4::lifted(x as int),
{
    [x, 0, 0, 0]
}

/// The Lagrange weights of `0`, `1` and infinity at `r`:
/// `[1 - r, r, r (r - 1)]`.
pub fn lagrange_weights_01inf(r: [u32; 4]) -> (w: [[u32; 4]; 3])
    ensures
        (ext4::quad(w@[0]@), ext4::quad(w@[1]@), ext4::quad(w@[2]@)) == model::lagrange(
            ext4::quad(r@),
        ),
{
    [ext4::sub(EF_ONE, r), r, ext4::mul(r, ext4::sub(r, EF_ONE))]
}

/// `e0 w0 + e1 w1 + e_inf w_inf`.
pub fn extrapolate_01inf(e0: [u32; 4], e1: [u32; 4], e_inf: [u32; 4], r: [u32; 4]) -> (v: [u32; 4])
    ensures
        ext4::quad(v@) == model::extrapolated(
            ext4::quad(e0@),
            ext4::quad(e1@),
            ext4::quad(e_inf@),
            ext4::quad(r@),
        ),
        ext4::canonical(ext4::quad(v@)),
{
    let w = lagrange_weights_01inf(r);
    ext4::add(ext4::add(ext4::mul(e0, w[0]), ext4::mul(e1, w[1])), ext4::mul(e_inf, w[2]))
}

/// One round of a sumcheck: `h(1)` comes from the claim, and the new claim is
/// `h(r)`.
pub fn sumcheck_round(claim: [u32; 4], c0: [u32; 4], c_inf: [u32; 4], r: [u32; 4]) -> (v: [u32; 4])
    ensures
        ext4::quad(v@) == model::sumcheck_step(
            ext4::quad(claim@),
            ext4::quad(c0@),
            ext4::quad(c_inf@),
            ext4::quad(r@),
        ),
        ext4::canonical(ext4::quad(v@)),
{
    extrapolate_01inf(c0, ext4::sub(claim, c0), c_inf, r)
}

/// The multilinear polynomial with evaluations `evals` at `point`.
///
/// `evals` holds `2^n` values indexed by the point's variables, the first most
/// significant, so the last variable pairs adjacent entries and folding runs
/// backwards to `point[0]`.
pub fn eval_multilinear(evals: &[[u32; 4]], point: &[[u32; 4]]) -> (v: [u32; 4])
    requires
        evals@.len() == pow2(point@.len()),
    ensures
        ext4::quad(v@) == model::multilinear(ext4::quads(evals@), ext4::quads(point@)),
{
    let mut table: Vec<[u32; 4]> = Vec::new();
    let mut k: usize = 0;
    while k < evals.len()
        invariant
            k <= evals@.len(),
            table@ == evals@.take(k as int),
        decreases evals@.len() - k,
    {
        table.push(evals[k]);
        assert(evals@.take(k + 1) =~= evals@.take(k as int).push(evals@[k as int]));
        k = k + 1;
    }
    assert(evals@.take(k as int) =~= evals@);
    let ghost want = model::multilinear(ext4::quads(evals@), ext4::quads(point@));
    let ghost all = ext4::quads(point@);
    let mut n = point.len();
    assert(all.take(n as int) =~= all);
    while n > 0
        invariant
            n <= point@.len(),
            all == ext4::quads(point@),
            table@.len() == pow2(n as nat),
            model::multilinear(ext4::quads(table@), all.take(n as int)) == want,
        decreases n,
    {
        let x = point[n - 1];
        let ghost before = ext4::quads(table@);
        let ghost fixed = model::halved(before, ext4::quad(x@));
        proof {
            lemma_pow2_unfold(n as nat);
            assert(all.take(n as int).drop_last() =~= all.take(n - 1));
            assert(all.take(n as int).last() == ext4::quad(x@));
        }
        let len = table.len();
        let half = len / 2;
        let mut next: Vec<[u32; 4]> = Vec::new();
        while next.len() < half
            invariant
                next@.len() <= half,
                len == table@.len(),
                len == 2 * half,
                before == ext4::quads(table@),
                fixed == model::halved(before, ext4::quad(x@)),
                forall|j: int| 0 <= j < next@.len() ==> ext4::quad((#[trigger] next@[j])@) == fixed[j],
            decreases half - next@.len(),
        {
            let j = next.len();
            let a = table[2 * j];
            let b = table[2 * j + 1];
            let v = ext4::add(a, ext4::mul(x, ext4::sub(b, a)));
            next.push(v);
        }
        table = next;
        assert(ext4::quads(table@) =~= fixed);
        n = n - 1;
    }
    proof {
        vstd::arithmetic::power2::lemma2_to64();
        assert(all.take(0).len() == 0);
    }
    table[0]
}

/// `eq(z, r)`: the product of `z_i r_i + (1 - z_i)(1 - r_i)`.
pub fn eq_eval(z: &[[u32; 4]], r: &[[u32; 4]]) -> (v: [u32; 4])
    requires
        z@.len() == r@.len(),
    ensures
        ext4::quad(v@) == model::eq_at(ext4::quads(z@), ext4::quads(r@)),
        ext4::canonical(ext4::quad(v@)),
{
    let mut acc: [u32; 4] = EF_ONE;
    let mut k: usize = 0;
    let ghost (zs, rs) = (ext4::quads(z@), ext4::quads(r@));
    while k < z.len()
        invariant
            k <= z@.len(),
            z@.len() == r@.len(),
            zs == ext4::quads(z@),
            rs == ext4::quads(r@),
            ext4::quad(acc@) == model::eq_at(zs.take(k as int), rs.take(k as int)),
            ext4::canonical(ext4::quad(acc@)),
        decreases z@.len() - k,
    {
        let a = z[k];
        let b = r[k];
        let term = ext4::add(
            ext4::mul(a, b),
            ext4::mul(ext4::sub(EF_ONE, a), ext4::sub(EF_ONE, b)),
        );
        acc = ext4::mul(acc, term);
        proof {
            assert(zs.take(k + 1).drop_last() =~= zs.take(k as int));
            assert(rs.take(k + 1).drop_last() =~= rs.take(k as int));
            assert(zs.take(k + 1).last() == ext4::quad(a@));
            assert(rs.take(k + 1).last() == ext4::quad(b@));
        }
        k = k + 1;
    }
    proof {
        assert(zs.take(k as int) =~= zs);
        assert(rs.take(k as int) =~= rs);
    }
    acc
}

/// `[u^(2^(m-1)), .., u^2, u]`.
pub fn expand_univariate(u: [u32; 4], m: usize) -> (out: Vec<[u32; 4]>)
    ensures
        out@.len() == m,
        ext4::quads(out@) == model::expanded(ext4::quad(u@), m as nat),
{
    let mut back: Vec<[u32; 4]> = Vec::new();
    let mut cur = u;
    while back.len() < m
        invariant
            back@.len() <= m,
            ext4::quad(cur@) == model::squared(ext4::quad(u@), back@.len()),
            forall|i: int|
                0 <= i < back@.len() ==> ext4::quad((#[trigger] back@[i])@) == model::squared(
                    ext4::quad(u@),
                    i as nat,
                ),
        decreases m - back@.len(),
    {
        back.push(cur);
        cur = ext4::mul(cur, cur);
    }
    let mut out: Vec<[u32; 4]> = Vec::new();
    while out.len() < m
        invariant
            out@.len() <= m,
            back@.len() == m,
            forall|i: int|
                0 <= i < back@.len() ==> ext4::quad((#[trigger] back@[i])@) == model::squared(
                    ext4::quad(u@),
                    i as nat,
                ),
            forall|i: int|
                0 <= i < out@.len() ==> ext4::quad((#[trigger] out@[i])@) == model::squared(
                    ext4::quad(u@),
                    (m - 1 - i) as nat,
                ),
        decreases m - out@.len(),
    {
        let i = out.len();
        assert(ext4::quad(back@[m - 1 - i]@) == model::squared(
            ext4::quad(u@),
            (m - 1 - i) as nat,
        ));
        out.push(back[m - 1 - i]);
    }
    assert(ext4::quads(out@) =~= model::expanded(ext4::quad(u@), m as nat));
    out
}

/// `claim + sum_i chi^(shift + i) e_i`.
pub(crate) fn combine_into(
    claim: [u32; 4],
    chi: [u32; 4],
    shift: usize,
    evals: &[[u32; 4]],
) -> (r: [u32; 4])
    ensures
        ext4::quad(r@) == model::weighted(
            ext4::quad(claim@),
            ext4::quad(chi@),
            shift as nat,
            ext4::quads(evals@),
        ),
        evals@.len() > 0 || ext4::canonical(ext4::quad(claim@)) ==> ext4::canonical(
            ext4::quad(r@),
        ),
{
    let mut power: [u32; 4] = EF_ONE;
    let mut s: usize = 0;
    while s < shift
        invariant
            s <= shift,
            ext4::quad(power@) == ext4::power(ext4::quad(chi@), s as nat),
        decreases shift - s,
    {
        power = ext4::mul(power, chi);
        s = s + 1;
    }
    let mut acc = claim;
    let mut k: usize = 0;
    let ghost all = ext4::quads(evals@);
    while k < evals.len()
        invariant
            k <= evals@.len(),
            all == ext4::quads(evals@),
            ext4::quad(power@) == ext4::power(ext4::quad(chi@), (shift + k) as nat),
            ext4::quad(acc@) == model::weighted(
                ext4::quad(claim@),
                ext4::quad(chi@),
                shift as nat,
                all.take(k as int),
            ),
            k > 0 || ext4::canonical(ext4::quad(claim@)) ==> ext4::canonical(ext4::quad(acc@)),
        decreases evals@.len() - k,
    {
        acc = ext4::add(acc, ext4::mul(power, evals[k]));
        power = ext4::mul(power, chi);
        proof {
            assert(all.take(k + 1).drop_last() =~= all.take(k as int));
            assert(all.take(k + 1).last() == all[k as int]);
        }
        k = k + 1;
    }
    assert(all.take(k as int) =~= all);
    acc
}

/// `base + sum_i gamma^(i + 1) y_i`.
pub fn combine_answers(base: [u32; 4], gamma: [u32; 4], answers: &[[u32; 4]]) -> (r: [u32; 4])
    ensures
        ext4::quad(r@) == model::weighted(
            ext4::quad(base@),
            ext4::quad(gamma@),
            1,
            ext4::quads(answers@),
        ),
{
    combine_into(base, gamma, 1, answers)
}

/// The last `n` coordinates of `randomness`.
fn local_randomness(randomness: &[[u32; 4]], n: usize) -> (r: &[[u32; 4]])
    requires
        n <= randomness@.len(),
    ensures
        r@.len() == n,
        ext4::quads(r@) == model::suffix(ext4::quads(randomness@), n as nat),
{
    let (_, r) = randomness.split_at(randomness.len() - n);
    assert(ext4::quads(r@) =~= model::suffix(ext4::quads(randomness@), n as nat));
    r
}

/// Weighted points as mathematics.
pub open spec fn points_of(group: Seq<([u32; 4], Vec<[u32; 4]>)>) -> Seq<(Quad, Seq<Quad>)> {
    Seq::new(
        group.len(),
        |i: int| (ext4::quad(group[i].0@), ext4::quads(group[i].1@)),
    )
}

/// The sum of [`model::group_weight`] over the first `k` groups, each added term
/// by term.
pub open spec fn groups_weight(
    randomness: Seq<Quad>,
    groups: Seq<Vec<([u32; 4], Vec<[u32; 4]>)>>,
    k: nat,
) -> Quad
    decreases k,
{
    if k == 0 {
        ext4::zero()
    } else {
        let points = points_of(groups[k - 1]@);
        added_weights(
            groups_weight(randomness, groups, (k - 1) as nat),
            randomness,
            points,
            points.len(),
        )
    }
}

/// `base` plus the first `k` weighted equality polynomials.
pub open spec fn added_weights(
    base: Quad,
    randomness: Seq<Quad>,
    points: Seq<(Quad, Seq<Quad>)>,
    k: nat,
) -> Quad
    decreases k,
{
    if k == 0 {
        base
    } else {
        let (w, z) = points[k - 1];
        ext4::plus(
            added_weights(base, randomness, points, (k - 1) as nat),
            ext4::times(w, model::eq_at(z, model::suffix(randomness, z.len()))),
        )
    }
}

/// The batched constraints' weight at `randomness`, the concatenation of every
/// round's folding randomness: each constraint reads its last coordinates.
pub fn constraint_eval(
    randomness: &[[u32; 4]],
    groups: &[Vec<([u32; 4], Vec<[u32; 4]>)>],
) -> (v: [u32; 4])
    requires
        forall|g: int, i: int|
            0 <= g < groups@.len() && 0 <= i < groups@[g]@.len() ==> (
            #[trigger] groups@[g]@[i]).1@.len() <= randomness@.len(),
    ensures
        ext4::quad(v@) == groups_weight(
            ext4::quads(randomness@),
            groups@,
            groups@.len(),
        ),
{
    let mut acc: [u32; 4] = EF_ZERO;
    let mut g: usize = 0;
    let ghost rs = ext4::quads(randomness@);
    while g < groups.len()
        invariant
            g <= groups@.len(),
            rs == ext4::quads(randomness@),
            forall|h: int, i: int|
                0 <= h < groups@.len() && 0 <= i < groups@[h]@.len() ==> (
                #[trigger] groups@[h]@[i]).1@.len() <= randomness@.len(),
            ext4::quad(acc@) == groups_weight(rs, groups@, g as nat),
        decreases groups@.len() - g,
    {
        let group = &groups[g];
        let ghost points = points_of(group@);
        let ghost base = ext4::quad(acc@);
        let mut i: usize = 0;
        while i < group.len()
            invariant
                i <= group@.len(),
                g < groups@.len(),
                group == groups@[g as int],
                points == points_of(group@),
                rs == ext4::quads(randomness@),
                forall|h: int, j: int|
                    0 <= h < groups@.len() && 0 <= j < groups@[h]@.len() ==> (
                    #[trigger] groups@[h]@[j]).1@.len() <= randomness@.len(),
                ext4::quad(acc@) == added_weights(base, rs, points, i as nat),
            decreases group@.len() - i,
        {
            assert(groups@[g as int]@[i as int].1@.len() <= randomness@.len());
            let z = &group[i].1;
            let local = local_randomness(randomness, z.len());
            acc = ext4::add(acc, ext4::mul(group[i].0, eq_eval(z.as_slice(), local)));
            i = i + 1;
        }
        g = g + 1;
    }
    acc
}

/// One batched group: its challenge, scalars and arity.
pub open spec fn batched_weight(
    base: Quad,
    randomness: Seq<Quad>,
    chi: Quad,
    scalars: Seq<Quad>,
    arity: nat,
    k: nat,
) -> Quad
    decreases k,
{
    if k == 0 {
        base
    } else {
        ext4::plus(
            batched_weight(base, randomness, chi, scalars, arity, (k - 1) as nat),
            ext4::times(
                ext4::power(chi, (k - 1) as nat),
                model::eq_at(
                    model::expanded(scalars[k - 1], arity),
                    model::suffix(randomness, arity),
                ),
            ),
        )
    }
}

/// The first `k` batched groups.
pub open spec fn batched_weights(
    randomness: Seq<Quad>,
    groups: Seq<([u32; 4], Vec<[u32; 4]>, usize)>,
    k: nat,
) -> Quad
    decreases k,
{
    if k == 0 {
        ext4::zero()
    } else {
        let (chi, scalars, arity) = groups[k - 1];
        batched_weight(
            batched_weights(randomness, groups, (k - 1) as nat),
            randomness,
            ext4::quad(chi@),
            ext4::quads(scalars@),
            arity as nat,
            scalars@.len(),
        )
    }
}

/// The weights with the powers of each group's challenge spelled out, starting at
/// `chi^0 = 1`.
pub fn constraint_eval_batched(
    randomness: &[[u32; 4]],
    groups: &[([u32; 4], Vec<[u32; 4]>, usize)],
) -> (v: [u32; 4])
    requires
        forall|g: int|
            0 <= g < groups@.len() ==> (#[trigger] groups@[g]).2 <= randomness@.len(),
    ensures
        ext4::quad(v@) == batched_weights(
            ext4::quads(randomness@),
            groups@,
            groups@.len(),
        ),
{
    let mut acc: [u32; 4] = EF_ZERO;
    let mut g: usize = 0;
    let ghost rs = ext4::quads(randomness@);
    while g < groups.len()
        invariant
            g <= groups@.len(),
            rs == ext4::quads(randomness@),
            forall|h: int|
                0 <= h < groups@.len() ==> (#[trigger] groups@[h]).2 <= randomness@.len(),
            ext4::quad(acc@) == batched_weights(rs, groups@, g as nat),
        decreases groups@.len() - g,
    {
        let group = &groups[g];
        assert(groups@[g as int].2 <= randomness@.len());
        let chi = group.0;
        let scalars = &group.1;
        let arity = group.2;
        let local = local_randomness(randomness, arity);
        let ghost base = ext4::quad(acc@);
        let ghost us = ext4::quads(scalars@);
        let mut power: [u32; 4] = EF_ONE;
        let mut i: usize = 0;
        while i < scalars.len()
            invariant
                i <= scalars@.len(),
                us == ext4::quads(scalars@),
                local@.len() == arity,
                ext4::quads(local@) == model::suffix(rs, arity as nat),
                ext4::quad(power@) == ext4::power(ext4::quad(chi@), i as nat),
                ext4::quad(acc@) == batched_weight(
                    base,
                    rs,
                    ext4::quad(chi@),
                    us,
                    arity as nat,
                    i as nat,
                ),
            decreases scalars@.len() - i,
        {
            let point = expand_univariate(scalars[i], arity);
            acc = ext4::add(acc, ext4::mul(power, eq_eval(point.as_slice(), local)));
            power = ext4::mul(power, chi);
            i = i + 1;
        }
        g = g + 1;
    }
    acc
}

/// `sum_j w_j f(z_j)` over the first `k` points.
pub open spec fn closing(
    table: Seq<Quad>,
    points: Seq<(Quad, Seq<Quad>)>,
    k: nat,
) -> Quad
    decreases k,
{
    if k == 0 {
        ext4::zero()
    } else {
        let (w, z) = points[k - 1];
        ext4::plus(
            closing(table, points, (k - 1) as nat),
            ext4::times(w, model::multilinear(table, z)),
        )
    }
}

/// `sum_j w_j f(z_j)` for the multilinear `f` with evaluations `evals`.
pub fn closing_sum(evals: &[[u32; 4]], points: &[([u32; 4], Vec<[u32; 4]>)]) -> (v: [u32; 4])
    requires
        forall|j: int|
            0 <= j < points@.len() ==> evals@.len() == pow2((#[trigger] points@[j]).1@.len()),
    ensures
        ext4::quad(v@) == closing(
            ext4::quads(evals@),
            points_of(points@),
            points@.len(),
        ),
{
    let mut acc: [u32; 4] = EF_ZERO;
    let mut j: usize = 0;
    let ghost ps = points_of(points@);
    while j < points.len()
        invariant
            j <= points@.len(),
            ps == points_of(points@),
            forall|i: int|
                0 <= i < points@.len() ==> evals@.len() == pow2(
                    (#[trigger] points@[i]).1@.len(),
                ),
            ext4::quad(acc@) == closing(ext4::quads(evals@), ps, j as nat),
        decreases points@.len() - j,
    {
        assert(evals@.len() == pow2(points@[j as int].1@.len()));
        let z = &points[j].1;
        acc = ext4::add(acc, ext4::mul(points[j].0, eval_multilinear(evals, z.as_slice())));
        j = j + 1;
    }
    acc
}

/// `x^e` over the base field.
pub fn base_pow(x: u32, e: u64) -> (r: u32)
    ensures
        r == field::power(x as int, e as nat),
        r < P,
{
    let mut acc: u32 = 1;
    let mut base: u32 = x;
    let mut left: u64 = e;
    proof {
        lemma_one(field::power(x as int, e as nat));
        field_power_canonical(x as int, e as nat);
    }
    while left > 0
        invariant
            acc < P,
            field::times(acc as int, field::power(base as int, left as nat)) == field::power(
                x as int,
                e as nat,
            ),
        decreases left,
    {
        let ghost (a, b, l) = (acc as int, base as int, left as nat);
        proof {
            field::law_power_square(b, l / 2);
            let q = field::power(b, 2 * (l / 2));
            if l % 2 == 1 {
                assert(field::power(b, l) == field::times(q, b));
                field::law_times_commutes(q, b);
                field::law_times_associates(a, b, q);
            } else {
                assert(l == 2 * (l / 2));
            }
        }
        if left % 2 == 1 {
            acc = field::mul(acc, base);
        }
        base = field::mul(base, base);
        left = left / 2;
    }
    proof {
        assert(field::power(base as int, 0) == 1);
        lemma_one(acc as int);
        field::law_times_commutes(acc as int, 1);
    }
    acc
}

proof fn lemma_one(x: int)
    ensures
        field::canonical(x) ==> field::times(1, x) == x,
{
    if field::canonical(x) {
        vstd::arithmetic::div_mod::lemma_small_mod(
            x as nat,
            P as nat,
        );
    }
}

proof fn field_power_canonical(x: int, e: nat)
    ensures
        field::canonical(field::power(x, e)),
{
}

/// The multilinear extension of `b -> var^b` at `point`, read last coordinate
/// first with `var` squared per step.
pub fn select_eval(var: u32, point: &[[u32; 4]]) -> (v: [u32; 4])
    ensures
        ext4::quad(v@) == model::selected(ext4::one(), var as int, ext4::quads(point@)),
        ext4::canonical(ext4::quad(v@)),
{
    let ghost all = ext4::quads(point@);
    let ghost want = model::selected(ext4::one(), var as int, all);
    let mut cur = var;
    let mut acc: [u32; 4] = EF_ONE;
    let mut n = point.len();
    assert(all.take(n as int) =~= all);
    while n > 0
        invariant
            n <= point@.len(),
            all == ext4::quads(point@),
            model::selected(ext4::quad(acc@), cur as int, all.take(n as int)) == want,
            ext4::canonical(ext4::quad(acc@)),
        decreases n,
    {
        let r = point[n - 1];
        proof {
            assert(all.take(n as int).drop_last() =~= all.take(n - 1));
            assert(all.take(n as int).last() == ext4::quad(r@));
        }
        let term = ext4::add(ext4::mul(r, lift(field::sub(cur, 1))), EF_ONE);
        acc = ext4::mul(acc, term);
        cur = field::mul(cur, cur);
        n = n - 1;
    }
    assert(all.take(0).len() == 0);
    acc
}

/// `sum_j c_j var^j` with a base-field `var`.
pub fn horner(coeffs: &[[u32; 4]], var: u32) -> (v: [u32; 4])
    ensures
        ext4::quad(v@) == model::horner(ext4::quads(coeffs@), var as int),
        ext4::canonical(ext4::quad(v@)),
{
    let ghost all = ext4::quads(coeffs@);
    let x = lift(var);
    let mut acc: [u32; 4] = EF_ZERO;
    let mut n = coeffs.len();
    assert(all.skip(n as int) =~= Seq::<Quad>::empty());
    while n > 0
        invariant
            n <= coeffs@.len(),
            all == ext4::quads(coeffs@),
            ext4::quad(x@) == ext4::lifted(var as int),
            ext4::quad(acc@) == model::horner(all.skip(n as int), var as int),
            ext4::canonical(ext4::quad(acc@)),
        decreases n,
    {
        acc = ext4::add(ext4::mul(acc, x), coeffs[n - 1]);
        proof {
            assert(all.skip(n - 1).drop_first() =~= all.skip(n as int));
            assert(all.skip(n - 1)[0] == all[n - 1]);
        }
        n = n - 1;
    }
    assert(all.skip(0) =~= all);
    acc
}

} // verus!

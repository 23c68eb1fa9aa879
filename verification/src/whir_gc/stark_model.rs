//! The mathematical multi-STARK layers in front of the WHIR opening: the
//! zerocheck of the constraints, the batching of the opened columns into one
//! bit-level claim, and the ring switch that turns that claim into a claim on
//! the packed polynomial.
use super::field;
use super::field::Elt;
use super::protocol;
use super::protocol::Machine;
use super::stark::{Air, Config, Node, DIM};
use vstd::arithmetic::power2::pow2;
use vstd::prelude::*;

verus! {

/// The proof's messages.
pub struct StarkM {
    pub claimed_sum: Elt,
    pub round_polys: Seq<Seq<Elt>>,
    pub pow_witnesses: Seq<Elt>,
    pub values: Seq<Elt>,
    pub tensor: Seq<Elt>,
    pub successor: Option<(Seq<Elt>, Seq<Elt>)>,
    pub rs_sumcheck: Seq<(Elt, Elt)>,
    pub final_eval: Elt,
}

/// What the layers draw.
pub struct StarkDraws {
    pub alpha: Elt,
    pub beta: Elt,
    pub tau: Seq<Elt>,
    pub r: Seq<Elt>,
    pub final_sum: Elt,
    pub c: Seq<Elt>,
    pub r_batch: Seq<Elt>,
    pub alpha_rs: Option<Elt>,
    pub r_prime: Seq<Elt>,
    pub prefix: nat,
    pub surviving: Seq<Elt>,
    pub pow_ok: bool,
}

/// The least `k` with `2^k >= n`.
pub open spec fn ceil_log2(n: nat) -> nat {
    if n <= 1 {
        0
    } else {
        protocol::log2((n - 1) as nat) + 1
    }
}

pub open spec fn column_vars(cfg: Config) -> nat {
    ceil_log2(cfg.width as nat)
}

pub open spec fn bit_vars(cfg: Config) -> nat {
    cfg.log_height as nat + column_vars(cfg)
}

pub open spec fn packed_vars(cfg: Config) -> nat {
    (bit_vars(cfg) - 7) as nat
}

pub open spec fn sends_successor(cfg: Config) -> bool {
    cfg.log_height > 7
}

pub open spec fn kept_rows(cfg: Config) -> nat {
    if cfg.log_height > 7 {
        (cfg.log_height - 7) as nat
    } else {
        0
    }
}

// ---------------------------------------------------------------------------
// Field helpers.
// ---------------------------------------------------------------------------

/// The interpolation node `i`.
pub open spec fn node(i: int) -> Elt {
    field::bits_of(i as u128, 128)
}

pub open spec fn product(xs: Seq<Elt>) -> Elt
    decreases xs.len(),
{
    if xs.len() == 0 {
        field::one128()
    } else {
        field::times(product(xs.drop_last()), xs.last())
    }
}

/// `sum values[i] weights[i]` over the values.
pub open spec fn dot(values: Seq<Elt>, weights: Seq<Elt>) -> Elt
    decreases values.len(),
{
    if values.len() == 0 {
        field::zero128()
    } else {
        field::plus(
            dot(values.drop_last(), weights),
            field::times(values.last(), weights[values.len() - 1]),
        )
    }
}

/// The `eq` table split on one more bit.
pub open spec fn split_table(table: Seq<Elt>, p: Elt) -> Seq<Elt> {
    Seq::new(
        2 * table.len(),
        |i: int|
            if i % 2 == 0 {
                field::times(table[i / 2], field::plus(field::one128(), p))
            } else {
                field::times(table[i / 2], p)
            },
    )
}

/// The `eq` table of `point`, the first coordinate the most significant bit.
pub open spec fn eq_table(point: Seq<Elt>) -> Seq<Elt>
    decreases point.len(),
{
    if point.len() == 0 {
        seq![field::one128()]
    } else {
        split_table(eq_table(point.drop_last()), point.last())
    }
}

/// `r - x_i` for the nodes `i != j`, in order.
pub open spec fn other_factors(r: Elt, j: int) -> Seq<Elt> {
    Seq::new(
        4,
        |k: int|
            field::plus(
                r,
                node(
                    if k < j {
                        k
                    } else {
                        k + 1
                    },
                ),
            ),
    )
}

/// `prod (x_j - x_i)` over the nodes `i != j`.
pub open spec fn denominator(j: int) -> Elt {
    product(other_factors(node(j), j))
}

/// The Lagrange interpolation through the nodes `0..=4`, first `n` terms.
pub open spec fn lagrange(full: Seq<Elt>, r: Elt, n: nat) -> Elt
    decreases n,
{
    if n == 0 {
        field::zero128()
    } else {
        let j = n - 1;
        field::plus(
            lagrange(full, r, (n - 1) as nat),
            field::times(
                field::times(full[j], product(other_factors(r, j))),
                field::inverse(denominator(j)),
            ),
        )
    }
}

/// The values at the nodes: `h(1)` is the running sum less `h(0)`.
pub open spec fn node_values(evals: Seq<Elt>, running: Elt) -> Seq<Elt> {
    seq![evals[0], field::plus(running, evals[0]), evals[1], evals[2], evals[3]]
}

/// The round polynomial at `r`.
pub open spec fn round_poly_at(evals: Seq<Elt>, running: Elt, r: Elt) -> Elt {
    lagrange(node_values(evals, running), r, 5)
}

// ---------------------------------------------------------------------------
// The tensor algebra, as 128 rows.
// ---------------------------------------------------------------------------

/// Row `u` has bit `v` the coefficient of `b_u (x) b_v`.
pub type TensorM = Seq<Elt>;

pub open spec fn tensor_shaped(t: TensorM) -> bool {
    t.len() == DIM && forall|u: int| 0 <= u < DIM ==> (#[trigger] t[u]).len() == DIM
}

pub open spec fn tensor_zero() -> TensorM {
    Seq::new(DIM as nat, |u: int| field::zero128())
}

pub open spec fn tensor_one() -> TensorM {
    Seq::new(
        DIM as nat,
        |u: int|
            if u == 0 {
                field::one128()
            } else {
                field::zero128()
            },
    )
}

/// The transposition.
pub open spec fn transposed(t: TensorM) -> TensorM {
    Seq::new(DIM as nat, |v: int| Seq::new(DIM as nat, |u: int| t[u][v]))
}

pub open spec fn exterior(a: Elt, b: Elt) -> TensorM {
    Seq::new(
        DIM as nat,
        |u: int|
            if a[u] {
                b
            } else {
                field::zero128()
            },
    )
}

pub open spec fn tensor_plus(s: TensorM, t: TensorM) -> TensorM {
    Seq::new(DIM as nat, |u: int| field::plus(s[u], t[u]))
}

pub open spec fn scale_rows(t: TensorM, b: Elt) -> TensorM {
    Seq::new(DIM as nat, |u: int| field::times(t[u], b))
}

pub open spec fn scale_columns(t: TensorM, a: Elt) -> TensorM {
    transposed(scale_rows(transposed(t), a))
}

/// `(1 + a (x) 1 + 1 (x) b) t`.
pub open spec fn mul_equality_factor(t: TensorM, a: Elt, b: Elt) -> TensorM {
    tensor_plus(tensor_plus(t, scale_columns(t, a)), scale_rows(t, b))
}

/// `prod (1 + a_i (x) 1 + 1 (x) b_i)` applied to `t`.
pub open spec fn equality_factors(t: TensorM, a: Seq<Elt>, b: Seq<Elt>) -> TensorM
    decreases a.len(),
{
    if a.len() == 0 {
        t
    } else {
        mul_equality_factor(
            equality_factors(t, a.drop_last(), b.drop_last()),
            a.last(),
            b.last(),
        )
    }
}

pub open spec fn equality_element(a: Seq<Elt>, b: Seq<Elt>) -> TensorM {
    equality_factors(tensor_one(), a, b)
}

/// The successor element over the coordinates from `k` on, with the carries.
pub open spec fn successor_from(point: Seq<Elt>, other: Seq<Elt>, k: int) -> (TensorM, Elt, Elt)
    decreases point.len() - k,
{
    if k >= point.len() {
        (tensor_zero(), field::one128(), field::one128())
    } else {
        let (done, carry_a, carry_b) = successor_from(point, other, k + 1);
        let one = field::one128();
        let a = point[k];
        let b = other[k];
        let stepped = mul_equality_factor(done, a, b);
        let ext = exterior(
            field::times(carry_a, field::plus(one, a)),
            field::times(carry_b, b),
        );
        (
            tensor_plus(stepped, ext),
            field::times(carry_a, a),
            field::times(carry_b, field::plus(one, b)),
        )
    }
}

pub open spec fn successor_element(point: Seq<Elt>, other: Seq<Elt>) -> TensorM {
    successor_from(point, other, 0).0
}

// ---------------------------------------------------------------------------
// The constraints at a point.
// ---------------------------------------------------------------------------

/// The row selectors at the bound point.
pub struct BoundaryM {
    pub first: Elt,
    pub last: Elt,
    pub transition: Elt,
}

pub open spec fn complements(point: Seq<Elt>) -> Seq<Elt> {
    Seq::new(point.len(), |i: int| field::plus(field::one128(), point[i]))
}

pub open spec fn boundary_at(point: Seq<Elt>) -> BoundaryM {
    let last = product(point);
    BoundaryM {
        first: product(complements(point)),
        last,
        transition: field::plus(field::one128(), last),
    }
}

/// The value of expression `i`; subtraction is addition, and negation the
/// identity, in characteristic two.
pub open spec fn expr_value(
    nodes: Seq<Node>,
    local: Seq<Elt>,
    next: Seq<Elt>,
    b: BoundaryM,
    i: nat,
) -> Elt
    decreases i,
{
    match nodes[i as int] {
        Node::Local(k) => local[k as int],
        Node::Next(k) => next[k as int],
        Node::IsFirstRow => b.first,
        Node::IsLastRow => b.last,
        Node::IsTransition => b.transition,
        Node::Constant(c) => c@,
        Node::Add(x, y) => if x < i && y < i {
            field::plus(
                expr_value(nodes, local, next, b, x as nat),
                expr_value(nodes, local, next, b, y as nat),
            )
        } else {
            field::zero128()
        },
        Node::Sub(x, y) => if x < i && y < i {
            field::plus(
                expr_value(nodes, local, next, b, x as nat),
                expr_value(nodes, local, next, b, y as nat),
            )
        } else {
            field::zero128()
        },
        Node::Neg(x) => if x < i {
            expr_value(nodes, local, next, b, x as nat)
        } else {
            field::zero128()
        },
        Node::Mul(x, y) => if x < i && y < i {
            field::times(
                expr_value(nodes, local, next, b, x as nat),
                expr_value(nodes, local, next, b, y as nat),
            )
        } else {
            field::zero128()
        },
    }
}

/// The constraints batched by `alpha`, Horner over the first `n`.
pub open spec fn air_horner(
    air: Air,
    local: Seq<Elt>,
    next: Seq<Elt>,
    b: BoundaryM,
    alpha: Elt,
    n: nat,
) -> Elt
    decreases n,
{
    if n == 0 {
        field::zero128()
    } else {
        field::plus(
            field::times(air_horner(air, local, next, b, alpha, (n - 1) as nat), alpha),
            expr_value(air.nodes@, local, next, b, air.constraints@[n - 1] as nat),
        )
    }
}

pub open spec fn air_at(
    air: Air,
    local: Seq<Elt>,
    next: Seq<Elt>,
    b: BoundaryM,
    alpha: Elt,
) -> Elt {
    air_horner(air, local, next, b, alpha, air.constraints@.len())
}

// ---------------------------------------------------------------------------
// The transcript.
// ---------------------------------------------------------------------------

/// `n` nonzero draws, zeros redrawn, out of at most `fuel` draws.
pub open spec fn nonzero_draws<St>(m: Machine<St>, st: St, n: nat, fuel: nat) -> Option<
    (St, Seq<Elt>),
>
    decreases fuel,
{
    if n == 0 {
        Some((st, Seq::empty()))
    } else if fuel == 0 {
        None
    } else {
        let (s, x) = protocol::draw_elt(m, st);
        if x == field::zero128() {
            nonzero_draws(m, s, n, (fuel - 1) as nat)
        } else {
            match nonzero_draws(m, s, (n - 1) as nat, (fuel - 1) as nat) {
                Some((t, rest)) => Some((t, seq![x] + rest)),
                None => None,
            }
        }
    }
}

/// The zerocheck's sumcheck: per round the message, grinding, the draw.
pub open spec fn zerocheck_draws<St>(
    m: Machine<St>,
    st: St,
    claimed: Elt,
    polys: Seq<Seq<Elt>>,
    witnesses: Seq<Elt>,
    pow_bits: nat,
) -> (St, Seq<Elt>, Elt, bool)
    decreases polys.len(),
{
    if polys.len() == 0 {
        (st, Seq::empty(), claimed, true)
    } else {
        let k = polys.len() - 1;
        let (s, r, running, ok) = zerocheck_draws(
            m,
            st,
            claimed,
            polys.drop_last(),
            witnesses,
            pow_bits,
        );
        let s1 = protocol::absorb_elts(m, s, polys.last());
        let (s2, ground) = protocol::check_witness(m, s1, pow_bits, witnesses[k]);
        let (s3, x) = protocol::draw_elt(m, s2);
        (s3, r.push(x), round_poly_at(polys.last(), running, x), ok && ground)
    }
}

/// The ring switch's sumcheck: per round the message, then the draw.
pub open spec fn switch_draws<St>(m: Machine<St>, st: St, msgs: Seq<(Elt, Elt)>) -> (St, Seq<Elt>)
    decreases msgs.len(),
{
    if msgs.len() == 0 {
        (st, Seq::empty())
    } else {
        let (s, r) = switch_draws(m, st, msgs.drop_last());
        let s1 = protocol::absorb_elt(m, protocol::absorb_elt(m, s, msgs.last().0), msgs.last().1);
        let (s2, x) = protocol::draw_elt(m, s1);
        (s2, r.push(x))
    }
}

/// Leading coordinates that are exactly 0 or 1.
pub open spec fn boolean_prefix(point: Seq<Elt>) -> nat
    decreases point.len(),
{
    if point.len() > 0 && (point[0] == field::zero128() || point[0] == field::one128()) {
        1 + boolean_prefix(point.skip(1))
    } else {
        0
    }
}

/// After the zerocheck's challenges: its sumcheck and the column batching.
pub open spec fn batching_draws<St>(m: Machine<St>, st: St, cfg: Config, p: StarkM) -> (
    St,
    Seq<Elt>,
    Elt,
    Seq<Elt>,
    bool,
) {
    let s0 = protocol::absorb_all(m, st, cfg.seeds.generic_degree@);
    let s1 = protocol::absorb_elt(m, s0, p.claimed_sum);
    let (s2, r, final_sum, ok) = zerocheck_draws(
        m,
        s1,
        p.claimed_sum,
        p.round_polys,
        p.pow_witnesses,
        cfg.pow_bits as nat,
    );
    let s3 = protocol::absorb_all(m, s2, cfg.seeds.column_batching@);
    let s4 = protocol::absorb_elts(m, protocol::absorb_elts(m, s3, r), p.values);
    let (s5, c) = protocol::draw_elts(m, s4, column_vars(cfg));
    (s5, r, final_sum, c, ok)
}

/// The ring switch's statement and its batching challenges.
pub open spec fn statement_draws<St>(
    m: Machine<St>,
    st: St,
    cfg: Config,
    p: StarkM,
    point: Seq<Elt>,
) -> (St, Seq<Elt>, Option<Elt>) {
    let s0 = protocol::absorb_all(m, st, cfg.seeds.ring_switch@);
    let s1 = protocol::absorb_elts(m, protocol::absorb_elts(m, s0, point), p.tensor);
    let s2 = match p.successor {
        Some((carry, last)) => protocol::absorb_elts(m, protocol::absorb_elts(m, s1, carry), last),
        None => s1,
    };
    let (s3, r_batch) = protocol::draw_elts(m, s2, 7);
    if sends_successor(cfg) {
        let (s4, a) = protocol::draw_elt(m, s3);
        (s4, r_batch, Some(a))
    } else {
        (s3, r_batch, None)
    }
}

/// The ring switch's sumcheck rounds after a Boolean prefix.
pub open spec fn switch_rounds(cfg: Config, prefix: nat) -> nat {
    (packed_vars(cfg) - prefix) as nat
}

/// The coordinates that the ring switch may fix.
pub open spec fn fixable(cfg: Config, point: Seq<Elt>) -> Seq<Elt> {
    let packed = packed_vars(cfg);
    let limit = if packed < column_vars(cfg) {
        packed
    } else {
        column_vars(cfg)
    };
    point.take(limit as int)
}

/// Everything between the commitment and the out-of-domain draws, given the
/// zerocheck's nonzero challenges `tau`.
pub open spec fn prefix_after_tau<St>(
    m: Machine<St>,
    st: St,
    cfg: Config,
    p: StarkM,
    alpha: Elt,
    beta: Elt,
    tau: Seq<Elt>,
) -> (St, StarkDraws) {
    let (s1, r, final_sum, c, ok) = batching_draws(m, st, cfg, p);
    let point = c + r;
    let (s2, r_batch, alpha_rs) = statement_draws(m, s1, cfg, p, point);
    let prefix = boolean_prefix(fixable(cfg, point));
    let rounds = switch_rounds(cfg, prefix);
    let (s3, r_prime) = if rounds > 0 {
        switch_draws(m, protocol::absorb_all(m, s2, cfg.seeds.quadratic@), p.rs_sumcheck)
    } else {
        (s2, Seq::empty())
    };
    (
        protocol::absorb_elt(m, s3, p.final_eval),
        StarkDraws {
            alpha,
            beta,
            tau,
            r,
            final_sum,
            c,
            r_batch,
            alpha_rs,
            r_prime,
            prefix,
            surviving: point.take(prefix as int) + r_prime,
            pow_ok: ok,
        },
    )
}

/// The zerocheck's first challenges.
pub open spec fn first_draws<St>(m: Machine<St>, st: St, cfg: Config) -> (St, Elt, Elt) {
    let (s1, alpha) = protocol::draw_elt(m, protocol::absorb_all(m, st, cfg.seeds.zerocheck@));
    let (s2, beta) = protocol::draw_elt(m, s1);
    (s2, alpha, beta)
}

/// The whole prefix, spending at most `fuel` draws on the nonzero challenges.
pub open spec fn prefix<St>(m: Machine<St>, st: St, cfg: Config, p: StarkM, fuel: nat) -> Option<
    (St, StarkDraws),
> {
    let (s, alpha, beta) = first_draws(m, st, cfg);
    match nonzero_draws(m, s, cfg.log_height as nat, fuel) {
        Some((t, tau)) => Some(prefix_after_tau(m, t, cfg, p, alpha, beta, tau)),
        None => None,
    }
}

// ---------------------------------------------------------------------------
// The checks.
// ---------------------------------------------------------------------------

/// The zerocheck's closing identity: `final_sum = eq(tau, r) g(r)`.
pub open spec fn zerocheck_closes(cfg: Config, p: StarkM, air: Air, d: StarkDraws) -> bool {
    let w = cfg.width as int;
    let g = air_at(air, p.values.take(w), p.values.skip(w), boundary_at(d.r), d.alpha);
    d.final_sum == field::times(product(eq_factors(d.tau, d.r)), g)
}

/// `1 + t_i + x_i`.
pub open spec fn eq_factors(t: Seq<Elt>, x: Seq<Elt>) -> Seq<Elt> {
    Seq::new(
        t.len(),
        |i: int| field::plus(field::plus(field::one128(), t[i]), x[i]),
    )
}

/// The bit-level point: the column point, then the row point.
pub open spec fn bit_point(d: StarkDraws) -> Seq<Elt> {
    d.c + d.r
}

/// The `eq` table of the coordinates that a packed element absorbs.
pub open spec fn eq_low(d: StarkDraws) -> Seq<Elt> {
    let point = bit_point(d);
    eq_table(point.skip(point.len() - 7))
}

/// The tensor's reading of the current row is the batched one.
pub open spec fn incoming_ok(cfg: Config, p: StarkM, d: StarkDraws) -> bool {
    dot(transposed(p.tensor), eq_low(d)) == dot(
        p.values.take(cfg.width as int),
        eq_table(d.c),
    )
}

/// The successor weights on the tensor's columns.
pub open spec fn successor_weights(cfg: Config, low: Seq<Elt>) -> Seq<Elt> {
    if sends_successor(cfg) {
        Seq::new(
            DIM as nat,
            |v: int|
                if v == 0 {
                    field::zero128()
                } else {
                    low[v - 1]
                },
        )
    } else {
        let height = pow2(cfg.log_height as nat) as int;
        Seq::new(
            DIM as nat,
            |v: int|
                {
                    let row = v % height;
                    let below = if row != 0 {
                        field::plus(field::zero128(), low[v - 1])
                    } else {
                        field::zero128()
                    };
                    if row == height - 1 {
                        field::plus(below, low[v])
                    } else {
                        below
                    }
                },
        )
    }
}

/// The tensors' reading of the next row.
pub open spec fn successor_reading(cfg: Config, p: StarkM, d: StarkDraws) -> Elt {
    let low = eq_low(d);
    let inner = dot(transposed(p.tensor), successor_weights(cfg, low));
    match p.successor {
        Some((carry, last)) => field::plus(
            inner,
            field::times(
                low[DIM - 1],
                field::plus(transposed(carry)[0], transposed(last)[DIM - 1]),
            ),
        ),
        None => inner,
    }
}

/// The tensors' reading of the next row is the batched one.
pub open spec fn successor_ok(cfg: Config, p: StarkM, d: StarkDraws) -> bool {
    successor_reading(cfg, p, d) == dot(p.values.skip(cfg.width as int), eq_table(d.c))
}

/// `x + a (c + a l)`, the three batched sums under `a`.
pub open spec fn with_successor(x: Elt, a: Elt, c: Elt, l: Elt) -> Elt {
    field::plus(x, field::times(a, field::plus(c, field::times(a, l))))
}

/// The batched sum before its sumcheck.
pub open spec fn switch_sum(p: StarkM, d: StarkDraws) -> Elt {
    let w = eq_table(d.r_batch);
    match (p.successor, d.alpha_rs) {
        (Some((carry, last)), Some(a)) => with_successor(
            dot(p.tensor, w),
            a,
            dot(carry, w),
            dot(last, w),
        ),
        _ => dot(p.tensor, w),
    }
}

/// The sum that the ring switch's sumcheck ends on.
pub open spec fn switch_claim(sum: Elt, msgs: Seq<(Elt, Elt)>, r: Seq<Elt>) -> Elt
    decreases msgs.len(),
{
    if msgs.len() == 0 {
        sum
    } else {
        protocol::sumcheck_round(
            switch_claim(sum, msgs.drop_last(), r),
            msgs.last().0,
            msgs.last().1,
            r[msgs.len() - 1],
        )
    }
}

/// The closing weight.
pub open spec fn switch_weight(cfg: Config, p: StarkM, d: StarkDraws) -> Elt {
    let w = eq_table(d.r_batch);
    let high = bit_point(d).take(packed_vars(cfg) as int);
    let rest = high.skip(d.prefix as int);
    let plain = dot(equality_element(rest, d.r_prime), w);
    match (p.successor, d.alpha_rs) {
        (Some(_), Some(a)) => {
            let k = rest.len() - kept_rows(cfg);
            let carry = equality_factors(
                successor_element(rest.skip(k), d.r_prime.skip(k)),
                rest.take(k),
                d.r_prime.take(k),
            );
            let last = equality_factors(
                exterior(product(rest.skip(k)), product(d.r_prime.skip(k))),
                rest.take(k),
                d.r_prime.take(k),
            );
            with_successor(plain, a, dot(carry, w), dot(last, w))
        },
        _ => plain,
    }
}

/// The ring switch's closing identity.
pub open spec fn switch_closes(cfg: Config, p: StarkM, d: StarkDraws) -> bool {
    let rounds = if p.rs_sumcheck.len() < d.r_prime.len() {
        p.rs_sumcheck.len()
    } else {
        d.r_prime.len()
    };
    switch_claim(switch_sum(p, d), p.rs_sumcheck.take(rounds as int), d.r_prime) == field::times(
        switch_weight(cfg, p, d),
        p.final_eval,
    )
}

/// Every check of the layers passes.
pub open spec fn accepts(cfg: Config, p: StarkM, air: Air, d: StarkDraws) -> bool {
    &&& d.pow_ok
    &&& p.claimed_sum == field::zero128()
    &&& zerocheck_closes(cfg, p, air, d)
    &&& incoming_ok(cfg, p, d)
    &&& successor_ok(cfg, p, d)
    &&& switch_closes(cfg, p, d)
}

// ---------------------------------------------------------------------------
// Facts about the interpolation.
// ---------------------------------------------------------------------------

proof fn lemma_xor_small(i: u128, j: u128)
    by (bit_vector)
    requires
        i < 5,
        j < 5,
        i != j,
    ensures
        1 <= i ^ j < 8,
{
}

/// Two different nodes differ by a unit.
pub proof fn lemma_node_difference(i: int, j: int)
    requires
        0 <= i < 5,
        0 <= j < 5,
        i != j,
    ensures
        field::unit(field::plus(node(i), node(j))),
{
    let a = i as u128;
    let b = j as u128;
    lemma_xor_small(a, b);
    assert forall|k: int| 0 <= k < 128 implies field::bits_of(a ^ b, 128)[k] == field::plus(
        node(i),
        node(j),
    )[k] by {
        field::lemma_bit_xor(a, b, k);
    }
    assert(field::bits_of(a ^ b, 128) =~= field::plus(node(i), node(j)));
    field::lemma_small_unit(a ^ b);
}

pub proof fn lemma_product_len(xs: Seq<Elt>)
    requires
        forall|i: int| 0 <= i < xs.len() ==> (#[trigger] xs[i]).len() == 128,
    ensures
        product(xs).len() == 128,
    decreases xs.len(),
{
    field::lemma_level_128();
    if xs.len() > 0 {
        let rest = xs.drop_last();
        assert forall|i: int| 0 <= i < rest.len() implies (#[trigger] rest[i]).len() == 128 by {
            assert(rest[i] == xs[i]);
        }
        lemma_product_len(rest);
        assert(xs[xs.len() - 1].len() == 128);
        field::lemma_times_len(product(rest), xs.last());
    }
}

proof fn lemma_product_unit(xs: Seq<Elt>)
    requires
        forall|i: int|
            0 <= i < xs.len() ==> (#[trigger] xs[i]).len() == 128 && field::unit(xs[i]),
    ensures
        field::unit(product(xs)),
        product(xs).len() == 128,
    decreases xs.len(),
{
    field::lemma_level_128();
    if xs.len() == 0 {
        field::law_times_one(field::one128());
        assert(field::times(field::one128(), field::one128()) == field::one(128));
    } else {
        let rest = xs.drop_last();
        assert forall|i: int| 0 <= i < rest.len() implies (#[trigger] rest[i]).len() == 128
            && field::unit(rest[i]) by {
            assert(rest[i] == xs[i]);
        }
        lemma_product_unit(rest);
        assert(xs[xs.len() - 1].len() == 128);
        field::law_unit_times(product(rest), xs.last());
        field::lemma_times_len(product(rest), xs.last());
    }
}

/// The denominators are units.
pub proof fn lemma_denominator(j: int)
    requires
        0 <= j < 5,
    ensures
        field::unit(denominator(j)),
        denominator(j).len() == 128,
{
    let fs = other_factors(node(j), j);
    assert forall|k: int| 0 <= k < fs.len() implies (#[trigger] fs[k]).len() == 128
        && field::unit(fs[k]) by {
        lemma_node_difference(
            j,
            if k < j {
                k
            } else {
                k + 1
            },
        );
    }
    lemma_product_unit(fs);
}

proof fn lemma_product_zero(xs: Seq<Elt>, k: int)
    requires
        forall|i: int| 0 <= i < xs.len() ==> (#[trigger] xs[i]).len() == 128,
        0 <= k < xs.len(),
        xs[k] == field::zero128(),
    ensures
        product(xs) == field::zero128(),
    decreases xs.len(),
{
    field::lemma_level_128();
    let rest = xs.drop_last();
    assert forall|i: int| 0 <= i < rest.len() implies (#[trigger] rest[i]).len() == 128 by {
        assert(rest[i] == xs[i]);
    }
    lemma_product_len(rest);
    assert(xs[xs.len() - 1].len() == 128);
    if k == xs.len() - 1 {
        field::lemma_times_zero(product(rest));
    } else {
        lemma_product_zero(rest, k);
        field::lemma_times_zero(xs.last());
        field::law_times_comm(xs.last(), field::zero128());
    }
}

/// The first `n` terms of the interpolation at node `j`.
pub proof fn lemma_lagrange_at_node(full: Seq<Elt>, j: int, n: nat)
    requires
        full.len() == 5,
        forall|i: int| 0 <= i < 5 ==> (#[trigger] full[i]).len() == 128,
        0 <= j < 5,
        n <= 5,
    ensures
        lagrange(full, node(j), n) == (if j < n {
            full[j]
        } else {
            field::zero128()
        }),
    decreases n,
{
    field::lemma_level_128();
    if n > 0 {
        let k = n - 1;
        lemma_lagrange_at_node(full, j, (n - 1) as nat);
        lemma_denominator(k);
        field::law_unit_inverse(denominator(k));
        let num = product(other_factors(node(j), k));
        let inv = field::inverse(denominator(k));
        assert(full[k].len() == 128);
        if k == j {
            field::law_times_assoc(full[k], num, inv);
            field::law_times_one(full[k]);
            field::law_plus_self(full[k]);
            field::law_plus_comm(full[k], field::zero128());
        } else {
            let fs = other_factors(node(j), k);
            let at = if j < k {
                j
            } else {
                j - 1
            };
            assert forall|i: int| 0 <= i < fs.len() implies (#[trigger] fs[i]).len() == 128 by {}
            field::law_plus_self(node(j));
            assert(fs[at] == field::plus(node(j), node(j)));
            lemma_product_zero(fs, at);
            field::lemma_times_zero(full[k]);
            field::lemma_times_zero(inv);
            field::law_times_comm(inv, field::zero128());
            if j < n - 1 {
                field::law_plus_self(full[j]);
            } else {
                field::law_plus_self(field::zero128());
            }
        }
    }
}

/// The round polynomial takes the transmitted values at the nodes `0, 2, 3, 4`,
/// and the running sum less the first of them at the node 1.
pub proof fn law_round_poly_interpolates(evals: Seq<Elt>, running: Elt, j: int)
    requires
        evals.len() == 4,
        forall|i: int| 0 <= i < 4 ==> (#[trigger] evals[i]).len() == 128,
        running.len() == 128,
        0 <= j < 5,
    ensures
        round_poly_at(evals, running, node(j)) == node_values(evals, running)[j],
{
    let full = node_values(evals, running);
    assert forall|i: int| 0 <= i < 5 implies (#[trigger] full[i]).len() == 128 by {
        assert(evals[0].len() == 128);
        assert(evals[1].len() == 128);
        assert(evals[2].len() == 128);
        assert(evals[3].len() == 128);
    }
    lemma_lagrange_at_node(full, j, 5);
}

// ---------------------------------------------------------------------------
// Facts about the tensor algebra.
// ---------------------------------------------------------------------------

pub proof fn lemma_transposed_shaped(t: TensorM)
    ensures
        tensor_shaped(transposed(t)),
{
}

proof fn lemma_tensor_ext(s: TensorM, t: TensorM)
    requires
        tensor_shaped(s),
        tensor_shaped(t),
        forall|u: int, v: int| 0 <= u < DIM && 0 <= v < DIM ==> #[trigger] s[u][v] == t[u][v],
    ensures
        s == t,
{
    assert forall|u: int| 0 <= u < DIM implies s[u] == t[u] by {
        assert(s[u] =~= t[u]);
    }
    assert(s =~= t);
}

pub proof fn lemma_transposed_twice(t: TensorM)
    requires
        tensor_shaped(t),
    ensures
        transposed(transposed(t)) == t,
{
    lemma_transposed_shaped(t);
    lemma_transposed_shaped(transposed(t));
    lemma_tensor_ext(transposed(transposed(t)), t);
}

pub proof fn lemma_scale_rows_shaped(t: TensorM, b: Elt)
    requires
        tensor_shaped(t),
        b.len() == 128,
    ensures
        tensor_shaped(scale_rows(t, b)),
{
    field::lemma_level_128();
    assert forall|u: int| 0 <= u < DIM implies (#[trigger] scale_rows(t, b)[u]).len() == DIM by {
        assert(t[u].len() == DIM);
        field::lemma_times_len(t[u], b);
    }
}

pub proof fn lemma_tensor_plus_shaped(s: TensorM, t: TensorM)
    requires
        tensor_shaped(s),
        tensor_shaped(t),
    ensures
        tensor_shaped(tensor_plus(s, t)),
{
    assert forall|u: int| 0 <= u < DIM implies (#[trigger] tensor_plus(s, t)[u]).len() == DIM by {
        assert(s[u].len() == DIM);
    }
}

/// Scaling by `1 + b` is adding the scaling by `b`.
proof fn lemma_scale_one_plus(t: TensorM, b: Elt)
    requires
        tensor_shaped(t),
        b.len() == 128,
    ensures
        scale_rows(t, field::plus(field::one128(), b)) == tensor_plus(t, scale_rows(t, b)),
{
    field::lemma_level_128();
    assert forall|u: int| 0 <= u < DIM implies scale_rows(
        t,
        field::plus(field::one128(), b),
    )[u] == tensor_plus(t, scale_rows(t, b))[u] by {
        assert(t[u].len() == DIM);
        field::law_distribute_right(t[u], field::one128(), b);
        field::law_times_one(t[u]);
    }
    assert(scale_rows(t, field::plus(field::one128(), b)) =~= tensor_plus(t, scale_rows(t, b)));
}

pub proof fn lemma_transposed_plus(s: TensorM, t: TensorM)
    requires
        tensor_shaped(s),
        tensor_shaped(t),
    ensures
        transposed(tensor_plus(s, t)) == tensor_plus(transposed(s), transposed(t)),
{
    lemma_tensor_plus_shaped(s, t);
    lemma_transposed_shaped(s);
    lemma_transposed_shaped(t);
    lemma_transposed_shaped(tensor_plus(s, t));
    lemma_tensor_plus_shaped(transposed(s), transposed(t));
    let l = transposed(tensor_plus(s, t));
    let r = tensor_plus(transposed(s), transposed(t));
    assert forall|u: int, v: int| 0 <= u < DIM && 0 <= v < DIM implies #[trigger] l[u][v]
        == r[u][v] by {
        assert(s[v].len() == DIM);
    }
    lemma_tensor_ext(l, r);
}

/// Scaling rows is additive.
pub proof fn lemma_scale_rows_plus(s: TensorM, t: TensorM, b: Elt)
    requires
        tensor_shaped(s),
        tensor_shaped(t),
        b.len() == 128,
    ensures
        scale_rows(tensor_plus(s, t), b) == tensor_plus(scale_rows(s, b), scale_rows(t, b)),
{
    field::lemma_level_128();
    assert forall|u: int| 0 <= u < DIM implies scale_rows(tensor_plus(s, t), b)[u]
        == tensor_plus(scale_rows(s, b), scale_rows(t, b))[u] by {
        assert(s[u].len() == DIM);
        assert(t[u].len() == DIM);
        field::law_distribute_left(s[u], t[u], b);
    }
    assert(scale_rows(tensor_plus(s, t), b) =~= tensor_plus(scale_rows(s, b), scale_rows(t, b)));
}

/// The equality step `1 + a (x) 1 + 1 (x) b` is the four-scaling form
/// `(1 + a (x) 1 + b) + (a (x) b)`.
pub proof fn law_equality_factor(t: TensorM, a: Elt, b: Elt)
    requires
        tensor_shaped(t),
        a.len() == 128,
        b.len() == 128,
    ensures
        mul_equality_factor(t, a, b) == tensor_plus(
            scale_rows(
                scale_columns(t, field::plus(field::one128(), a)),
                field::plus(field::one128(), b),
            ),
            scale_rows(scale_columns(t, a), b),
        ),
{
    let tt = transposed(t);
    lemma_transposed_shaped(t);
    lemma_transposed_twice(t);
    lemma_scale_rows_shaped(tt, a);
    lemma_scale_one_plus(tt, a);
    lemma_transposed_plus(tt, scale_rows(tt, a));
    let ca = scale_columns(t, a);
    lemma_transposed_shaped(scale_rows(tt, a));
    let c1a = tensor_plus(t, ca);
    assert(scale_columns(t, field::plus(field::one128(), a)) == c1a);
    lemma_tensor_plus_shaped(t, ca);
    lemma_scale_one_plus(c1a, b);
    lemma_scale_rows_plus(t, ca, b);
    let rb = scale_rows(t, b);
    let rcb = scale_rows(ca, b);
    lemma_scale_rows_shaped(t, b);
    lemma_scale_rows_shaped(ca, b);
    let l = mul_equality_factor(t, a, b);
    let r = tensor_plus(tensor_plus(c1a, tensor_plus(rb, rcb)), rcb);
    assert forall|u: int| 0 <= u < DIM implies l[u] == r[u] by {
        assert(t[u].len() == DIM);
        assert(ca[u].len() == DIM);
        assert(rb[u].len() == DIM);
        assert(rcb[u].len() == DIM);
        assert(l[u] =~= r[u]);
    }
    assert(l =~= r);
}

} // verus!

//! The multi-STARK layers in front of the WHIR opening: the zerocheck of the
//! constraints, the batching of the opened columns into one bit-level claim,
//! and the bit ring switch that turns that claim into a `GF(2^128)` claim on
//! the packed polynomial that WHIR committed to.
//!
//! The transcript runs after the commitment is absorbed and before the
//! out-of-domain draws, and hands WHIR the surviving point as the claim's
//! given point. One instance, no public values, no preprocessed columns, no
//! lookups, every column read on the current and the next row.
use super::field;
use super::field::Elt;
use super::protocol;
use super::reference;
use super::reference::{elts, extrapolate_01inf, Sponge, F};
use super::stark_model;
use super::stark_model::{BoundaryM, StarkDraws, StarkM, TensorM};
use super::tower;
use vstd::arithmetic::power2::pow2;
use vstd::prelude::*;

verus! {

/// Coordinates one packed element absorbs: `log2(128)`.
pub const ABSORBED: usize = 7;

/// The tensor's dimension: `GF(2^128)` over `GF(2)`.
pub const DIM: usize = 128;

/// One expression over the opened rows; operands name earlier expressions.
#[derive(Clone, Copy, Debug, PartialEq, Eq, Structural)]
pub enum Node {
    /// A column of the current row.
    Local(usize),
    /// A column of the next row.
    Next(usize),
    IsFirstRow,
    IsLastRow,
    IsTransition,
    Constant(F),
    Add(usize, usize),
    Sub(usize, usize),
    Neg(usize),
    Mul(usize, usize),
}

/// The constraint system, as the verifier needs it: its width and its
/// constraints in the order they are asserted, as expressions of a shared
/// list.
#[derive(Clone, Debug)]
pub struct Air {
    pub width: usize,
    pub nodes: Vec<Node>,
    pub constraints: Vec<usize>,
}

impl Node {
    /// The operands are earlier than `i`, and the columns below `width`.
    pub open spec fn well_placed(self, i: int, width: nat) -> bool {
        match self {
            Node::Local(k) => k < width,
            Node::Next(k) => k < width,
            Node::Add(x, y) => x < i && y < i,
            Node::Sub(x, y) => x < i && y < i,
            Node::Neg(x) => x < i,
            Node::Mul(x, y) => x < i && y < i,
            _ => true,
        }
    }
}

impl Air {
    /// Expressions read earlier ones and existing columns, and constraints name
    /// expressions.
    pub open spec fn wf(self, width: nat) -> bool {
        &&& forall|i: int|
            0 <= i < self.nodes@.len() ==> (#[trigger] self.nodes@[i]).well_placed(i, width)
        &&& forall|i: int|
            0 <= i < self.constraints@.len() ==> (#[trigger] self.constraints@[i])
                < self.nodes@.len()
    }
}

/// The domain-separator seeds each layer absorbs.
#[derive(Clone, Debug, Default)]
pub struct Seeds {
    pub zerocheck: Vec<u8>,
    pub generic_degree: Vec<u8>,
    pub column_batching: Vec<u8>,
    pub ring_switch: Vec<u8>,
    pub quadratic: Vec<u8>,
}

#[derive(Clone, Debug)]
pub struct Config {
    /// `log2` of the trace height.
    pub log_height: usize,
    pub width: usize,
    /// Grinding bits per zerocheck sumcheck round.
    pub pow_bits: usize,
    pub seeds: Seeds,
}

impl Config {
    /// Selector coordinates of a column: the least `k` with `2^k >= width`.
    pub fn column_vars(&self) -> (k: usize)
        ensures
            k == stark_model::column_vars(*self),
            k <= usize::BITS,
            self.width <= pow2(k as nat),
    {
        proof {
            vstd::arithmetic::power2::lemma2_to64();
        }
        if self.width <= 1 {
            0
        } else {
            let d = reference::floor_log2(self.width - 1);
            d + 1
        }
    }

    /// Variables of the bit-level polynomial.
    pub fn bit_vars(&self) -> (n: usize)
        requires
            self.log_height + stark_model::column_vars(*self) <= usize::MAX,
        ensures
            n == stark_model::bit_vars(*self),
    {
        self.log_height + self.column_vars()
    }

    /// Variables of the packed polynomial WHIR commits to.
    pub fn packed_vars(&self) -> (n: usize)
        requires
            ABSORBED <= self.log_height + stark_model::column_vars(*self) <= usize::MAX,
        ensures
            n == stark_model::packed_vars(*self),
    {
        self.bit_vars() - ABSORBED
    }

    /// Whether the ring switch sends successor tensors.
    pub fn sends_successor(&self) -> (r: bool)
        ensures
            r == stark_model::sends_successor(*self),
    {
        self.log_height > ABSORBED
    }

    /// Row coordinates the successor keeps.
    pub fn kept_rows(&self) -> (n: usize)
        ensures
            n == stark_model::kept_rows(*self),
    {
        if self.log_height > ABSORBED {
            self.log_height - ABSORBED
        } else {
            0
        }
    }
}

/// The proof's messages, in the order the transcript consumes them.
#[derive(Clone, Debug)]
pub struct Data {
    pub claimed_sum: F,
    /// Per zerocheck round: `h(0), h(2), h(3), h(4)` (node 1 is derived).
    pub round_polys: Vec<[F; 4]>,
    pub pow_witnesses: Vec<F>,
    /// The opened columns: current row, then next row.
    pub values: Vec<F>,
    /// The ring switch's tensor, 128 rows.
    pub tensor: Vec<F>,
    /// The carry and last tensors, when the trace has more than `2^7` rows.
    pub successor: Option<(Vec<F>, Vec<F>)>,
    /// The ring switch's sumcheck: per round `h(0), h(inf)`.
    pub rs_sumcheck: Vec<[F; 2]>,
    pub final_eval: F,
}

pub open spec fn poly_messages(v: Seq<[F; 4]>) -> Seq<Seq<Elt>> {
    Seq::new(v.len(), |i: int| elts(v[i]@))
}

pub open spec fn switch_messages(v: Seq<[F; 2]>) -> Seq<(Elt, Elt)> {
    Seq::new(v.len(), |i: int| (v[i]@[0]@, v[i]@[1]@))
}

impl Data {
    /// The messages.
    pub open spec fn messages(self) -> StarkM {
        StarkM {
            claimed_sum: self.claimed_sum@,
            round_polys: poly_messages(self.round_polys@),
            pow_witnesses: elts(self.pow_witnesses@),
            values: elts(self.values@),
            tensor: elts(self.tensor@),
            successor: match self.successor {
                Some((c, l)) => Some((elts(c@), elts(l@))),
                None => None,
            },
            rs_sumcheck: switch_messages(self.rs_sumcheck@),
            final_eval: self.final_eval@,
        }
    }
}

#[derive(Clone, Debug)]
pub struct Challenges {
    pub alpha: F,
    pub beta: F,
    pub tau: Vec<F>,
    /// The zerocheck's bound point, and the sum it closed on.
    pub r: Vec<F>,
    pub final_sum: F,
    /// The column point.
    pub c: Vec<F>,
    /// Ring switch: batching point, tensor batching, sumcheck point.
    pub r_batch: Vec<F>,
    pub alpha_rs: Option<F>,
    pub r_prime: Vec<F>,
    /// The Boolean prefix the ring switch fixed (leading 0/1 coordinates of
    /// the column point), and the surviving point WHIR opens at.
    pub prefix: usize,
    pub surviving: Vec<F>,
    pub pow_ok: bool,
}

pub open spec fn elt_option(x: Option<F>) -> Option<Elt> {
    match x {
        Some(v) => Some(v@),
        None => None,
    }
}

impl Challenges {
    /// What was drawn.
    pub open spec fn draws(self) -> StarkDraws {
        StarkDraws {
            alpha: self.alpha@,
            beta: self.beta@,
            tau: elts(self.tau@),
            r: elts(self.r@),
            final_sum: self.final_sum@,
            c: elts(self.c@),
            r_batch: elts(self.r_batch@),
            alpha_rs: elt_option(self.alpha_rs),
            r_prime: elts(self.r_prime@),
            prefix: self.prefix as nat,
            surviving: elts(self.surviving@),
            pow_ok: self.pow_ok,
        }
    }
}

#[derive(Clone, Copy, Debug, PartialEq, Eq, Structural)]
pub enum Error {
    Pow,
    ClaimedSum,
    Zerocheck,
    Incoming,
    Successor,
    RingSwitch,
}

// ---------------------------------------------------------------------------
// Field helpers.
// ---------------------------------------------------------------------------

/// The interpolation node `i`.
pub fn node(i: usize) -> (x: F)
    ensures
        x@ == stark_model::node(i as int),
        x.repr == i,
{
    F::from_repr(i as u128)
}

/// The eq table of `point`, big-endian: entry `i` is
/// `prod_j (1 + p_j + bit_{m-1-j}(i))`.
pub fn eq_table(point: &[F]) -> (table: Vec<F>)
    requires
        point@.len() < usize::BITS,
    ensures
        elts(table@) == stark_model::eq_table(elts(point@)),
        table@.len() == pow2(point@.len()),
{
    let one = F::one();
    let ghost pts = elts(point@);
    let mut table: Vec<F> = Vec::new();
    table.push(one);
    let mut k: usize = 0;
    proof {
        vstd::arithmetic::power2::lemma2_to64();
        assert(pts.take(0) =~= Seq::<Elt>::empty());
        assert(elts(table@) =~= seq![field::one128()]);
    }
    while k < point.len()
        invariant
            k <= point@.len(),
            one@ == field::one128(),
            pts == elts(point@),
            elts(table@) == stark_model::eq_table(pts.take(k as int)),
            table@.len() == pow2(k as nat),
        decreases point@.len() - k,
    {
        let p = point[k];
        let n = table.len();
        let mut next: Vec<F> = Vec::new();
        let mut i: usize = 0;
        let ghost want = stark_model::split_table(elts(table@), p@);
        while i < n
            invariant
                i <= n == table@.len(),
                one@ == field::one128(),
                want == stark_model::split_table(elts(table@), p@),
                next@.len() == 2 * i,
                forall|j: int| 0 <= j < next@.len() ==> (#[trigger] next@[j])@ == want[j],
            decreases n - i,
        {
            let t = table[i];
            next.push(t.times(one.plus(p)));
            next.push(t.times(p));
            i = i + 1;
        }
        proof {
            assert(elts(next@) =~= want);
            assert(pts.take(k + 1).drop_last() =~= pts.take(k as int));
            vstd::arithmetic::power2::lemma_pow2_unfold((k + 1) as nat);
        }
        table = next;
        k = k + 1;
    }
    assert(pts.take(k as int) =~= pts);
    table
}

/// `sum values[i] weights[i]`.
fn dot(values: &[F], weights: &[F]) -> (v: F)
    requires
        values@.len() <= weights@.len(),
    ensures
        v@ == stark_model::dot(elts(values@), elts(weights@)),
{
    let ghost vs = elts(values@);
    let mut acc = F::zero();
    let mut i: usize = 0;
    assert(vs.take(0) =~= Seq::<Elt>::empty());
    while i < values.len()
        invariant
            i <= values@.len() <= weights@.len(),
            vs == elts(values@),
            acc@ == stark_model::dot(vs.take(i as int), elts(weights@)),
        decreases values@.len() - i,
    {
        acc = acc.plus(values[i].times(weights[i]));
        assert(vs.take(i + 1).drop_last() =~= vs.take(i as int));
        i = i + 1;
    }
    assert(vs.take(i as int) =~= vs);
    acc
}

fn product(xs: &[F]) -> (v: F)
    ensures
        v@ == stark_model::product(elts(xs@)),
{
    let ghost all = elts(xs@);
    let mut acc = F::one();
    let mut i: usize = 0;
    assert(all.take(0) =~= Seq::<Elt>::empty());
    while i < xs.len()
        invariant
            i <= xs@.len(),
            all == elts(xs@),
            acc@ == stark_model::product(all.take(i as int)),
        decreases xs@.len() - i,
    {
        acc = acc.times(xs[i]);
        assert(all.take(i + 1).drop_last() =~= all.take(i as int));
        i = i + 1;
    }
    assert(all.take(i as int) =~= all);
    acc
}

/// `r - x_i` for the nodes `i != j`, in order.
fn other_factors(r: F, j: usize) -> (out: Vec<F>)
    requires
        j < 5,
    ensures
        elts(out@) == stark_model::other_factors(r@, j as int),
{
    let mut out: Vec<F> = Vec::new();
    while out.len() < 4
        invariant
            out@.len() <= 4,
            forall|k: int|
                0 <= k < out@.len() ==> (#[trigger] out@[k])@ == stark_model::other_factors(
                    r@,
                    j as int,
                )[k],
        decreases 4 - out@.len(),
    {
        let k = out.len();
        let i = if k < j {
            k
        } else {
            k + 1
        };
        out.push(r.plus(node(i)));
    }
    assert(elts(out@) =~= stark_model::other_factors(r@, j as int));
    out
}

/// `1 / prod (x_j - x_i)` over the nodes `i != j`.
pub(crate) fn inverse_denominator(j: usize) -> (x: F)
    requires
        j < 5,
    ensures
        x@ == field::inverse(stark_model::denominator(j as int)),
{
    let factors = other_factors(node(j), j);
    let den = product(factors.as_slice());
    proof {
        stark_model::lemma_denominator(j as int);
        field::lemma_level_128();
        field::law_zero_not_unit(128);
        if den.repr == 0 {
            assert forall|i: int| 0 <= i < 128 implies !field::bit(0, i) by {
                field::lemma_zero_bits(i);
            }
            assert(den@ =~= field::zero(128));
        }
    }
    den.inverse().unwrap()
}

/// The degree-4 round polynomial through the nodes `0..=4`, at `r`, from the
/// transmitted values `h(0), h(2), h(3), h(4)` and the running sum
/// (`h(1) = sum - h(0)`): Lagrange interpolation.
pub fn round_poly_at(evals: &[F; 4], running: F, r: F) -> (v: F)
    ensures
        v@ == stark_model::round_poly_at(elts(evals@), running@, r@),
{
    let full: [F; 5] = [evals[0], running.plus(evals[0]), evals[1], evals[2], evals[3]];
    let ghost values = stark_model::node_values(elts(evals@), running@);
    assert forall|i: int| 0 <= i < 5 implies (#[trigger] full@[i])@ == values[i] by {}
    let mut out = F::zero();
    let mut j: usize = 0;
    while j < 5
        invariant
            j <= 5,
            forall|i: int| 0 <= i < 5 ==> (#[trigger] full@[i])@ == values[i],
            out@ == stark_model::lagrange(values, r@, j as nat),
        decreases 5 - j,
    {
        let factors = other_factors(r, j);
        let num = product(factors.as_slice());
        let inv = inverse_denominator(j);
        assert(full@[j as int]@ == values[j as int]);
        out = out.plus(full[j].times(num).times(inv));
        j = j + 1;
    }
    out
}

// ---------------------------------------------------------------------------
// The tensor algebra, as 128 rows.
// ---------------------------------------------------------------------------

/// Row `u` is an element whose bit `v` is the coefficient of `b_u (x) b_v`.
#[derive(Clone, Debug, PartialEq, Eq)]
pub struct Tensor {
    pub rows: Vec<F>,
}

impl View for Tensor {
    type V = TensorM;

    open spec fn view(&self) -> TensorM {
        elts(self.rows@)
    }
}

/// Whether bit `i` of `x` is set.
fn bit(x: F, i: usize) -> (b: bool)
    requires
        i < 128,
    ensures
        b == x@[i as int],
{
    let k: u128 = i as u128;
    (x.to_repr() >> k) & 1 == 1
}

/// The element whose bit `u` is bit `v` of row `u`.
fn column(rows: &Vec<F>, v: usize) -> (x: F)
    requires
        rows@.len() == DIM,
        v < DIM,
    ensures
        x@ == stark_model::transposed(elts(rows@))[v as int],
{
    let ghost want = stark_model::transposed(elts(rows@))[v as int];
    let mut acc: u128 = 0;
    let mut u: usize = 0;
    proof {
        assert(0u128 >> 0u128 == 0u128) by (bit_vector);
    }
    while u < DIM
        invariant
            u <= DIM,
            v < DIM,
            rows@.len() == DIM,
            want == stark_model::transposed(elts(rows@))[v as int],
            u < 128 ==> acc >> (u as u128) == 0,
            forall|i: int| 0 <= i < u ==> #[trigger] field::bit(acc, i) == want[i],
        decreases DIM - u,
    {
        let one: u128 = if bit(rows[u], v) {
            1
        } else {
            0
        };
        let ghost acc0 = acc;
        acc = acc | (one << (u as u128));
        proof {
            tower::lemma_set_bit(acc0, u as u128, (u + 1) as u128, one, u as u128);
            assert forall|i: int| 0 <= i < u + 1 implies #[trigger] field::bit(acc, i)
                == want[i] by {
                tower::lemma_set_bit(acc0, u as u128, (u + 1) as u128, one, i as u128);
                if i < u {
                    assert(field::bit(acc0, i) == want[i]);
                }
            }
        }
        u = u + 1;
    }
    assert(field::bits_of(acc, 128) =~= want);
    F::from_repr(acc)
}

/// The transposition of 128 elements.
fn transpose(rows: &Vec<F>) -> (out: Vec<F>)
    requires
        rows@.len() == DIM,
    ensures
        elts(out@) == stark_model::transposed(elts(rows@)),
        out@.len() == DIM,
{
    let mut out: Vec<F> = Vec::new();
    while out.len() < DIM
        invariant
            rows@.len() == DIM,
            out@.len() <= DIM,
            forall|v: int|
                0 <= v < out@.len() ==> (#[trigger] out@[v])@ == stark_model::transposed(
                    elts(rows@),
                )[v],
        decreases DIM - out@.len(),
    {
        let v = out.len();
        out.push(column(rows, v));
    }
    assert(elts(out@) =~= stark_model::transposed(elts(rows@)));
    out
}

fn scaled(xs: &Vec<F>, b: F) -> (out: Vec<F>)
    requires
        xs@.len() == DIM,
    ensures
        elts(out@) == stark_model::scale_rows(elts(xs@), b@),
        out@.len() == DIM,
{
    let mut out: Vec<F> = Vec::new();
    while out.len() < DIM
        invariant
            xs@.len() == DIM,
            out@.len() <= DIM,
            forall|u: int|
                0 <= u < out@.len() ==> (#[trigger] out@[u])@ == field::times(xs@[u]@, b@),
        decreases DIM - out@.len(),
    {
        let u = out.len();
        out.push(xs[u].times(b));
    }
    assert(elts(out@) =~= stark_model::scale_rows(elts(xs@), b@));
    out
}

impl Tensor {
    /// A tensor has 128 rows.
    pub open spec fn wf(self) -> bool {
        self.rows@.len() == DIM
    }

    pub fn zero() -> (t: Self)
        ensures
            t.wf(),
            t@ == stark_model::tensor_zero(),
    {
        let zero = F::zero();
        let mut rows: Vec<F> = Vec::new();
        while rows.len() < DIM
            invariant
                rows@.len() <= DIM,
                zero@ == field::zero128(),
                forall|u: int| 0 <= u < rows@.len() ==> #[trigger] rows@[u] == zero,
            decreases DIM - rows@.len(),
        {
            rows.push(zero);
        }
        assert(elts(rows@) =~= stark_model::tensor_zero());
        Tensor { rows }
    }

    /// `1 (x) 1`.
    pub fn one() -> (t: Self)
        ensures
            t.wf(),
            t@ == stark_model::tensor_one(),
    {
        let z = Tensor::zero();
        let ghost zs = z.rows@;
        assert(forall|u: int| 0 <= u < DIM ==> (#[trigger] zs[u])@ == z@[u]);
        let mut rows = z.rows;
        rows.set(0, F::one());
        assert(elts(rows@) =~= stark_model::tensor_one());
        Tensor { rows }
    }

    pub fn from_rows(rows: &[F]) -> (t: Self)
        requires
            rows@.len() == DIM,
        ensures
            t.wf(),
            t@ == elts(rows@),
    {
        Tensor { rows: reference::copied(rows) }
    }

    /// Column `v`: the element whose bit `u` is bit `v` of row `u`.
    pub fn columns(&self) -> (cols: Vec<F>)
        requires
            self.wf(),
        ensures
            elts(cols@) == stark_model::transposed(self@),
            cols@.len() == DIM,
    {
        transpose(&self.rows)
    }

    /// `a (x) b`: row `u` is `b` where bit `u` of `a` is set.
    pub fn exterior(a: F, b: F) -> (t: Self)
        ensures
            t.wf(),
            t@ == stark_model::exterior(a@, b@),
    {
        let zero = F::zero();
        let mut rows: Vec<F> = Vec::new();
        while rows.len() < DIM
            invariant
                rows@.len() <= DIM,
                zero@ == field::zero128(),
                forall|u: int|
                    0 <= u < rows@.len() ==> (#[trigger] rows@[u])@ == stark_model::exterior(
                        a@,
                        b@,
                    )[u],
            decreases DIM - rows@.len(),
        {
            let u = rows.len();
            if bit(a, u) {
                rows.push(b);
            } else {
                rows.push(zero);
            }
        }
        assert(elts(rows@) =~= stark_model::exterior(a@, b@));
        Tensor { rows }
    }

    pub fn add(&self, other: &Self) -> (t: Self)
        requires
            self.wf(),
            other.wf(),
        ensures
            t.wf(),
            t@ == stark_model::tensor_plus(self@, other@),
    {
        let mut rows: Vec<F> = Vec::new();
        while rows.len() < DIM
            invariant
                self.wf(),
                other.wf(),
                rows@.len() <= DIM,
                forall|u: int|
                    0 <= u < rows@.len() ==> (#[trigger] rows@[u])@ == field::plus(
                        self.rows@[u]@,
                        other.rows@[u]@,
                    ),
            decreases DIM - rows@.len(),
        {
            let u = rows.len();
            rows.push(self.rows[u].plus(other.rows[u]));
        }
        assert(elts(rows@) =~= stark_model::tensor_plus(self@, other@));
        Tensor { rows }
    }

    /// `(1 (x) b) self`.
    pub fn scale_rows(&self, b: F) -> (t: Self)
        requires
            self.wf(),
        ensures
            t.wf(),
            t@ == stark_model::scale_rows(self@, b@),
    {
        Tensor { rows: scaled(&self.rows, b) }
    }

    /// `(a (x) 1) self`.
    pub fn scale_columns(&self, a: F) -> (t: Self)
        requires
            self.wf(),
        ensures
            t.wf(),
            t@ == stark_model::scale_columns(self@, a@),
    {
        let cols = self.columns();
        let scaled_cols = scaled(&cols, a);
        Tensor { rows: transpose(&scaled_cols) }
    }

    /// `(1 + a (x) 1 + 1 (x) b) self`.
    pub fn mul_equality_factor(&self, a: F, b: F) -> (t: Self)
        requires
            self.wf(),
        ensures
            t.wf(),
            t@ == stark_model::mul_equality_factor(self@, a@, b@),
    {
        let columns = self.scale_columns(a);
        let rows = self.scale_rows(b);
        let sum = self.add(&columns);
        sum.add(&rows)
    }

    /// `sum_u rows[u] weights[u]`.
    pub fn batch_rows(&self, weights: &[F]) -> (v: F)
        requires
            self.wf(),
            weights@.len() >= DIM,
        ensures
            v@ == stark_model::dot(self@, elts(weights@)),
    {
        dot(self.rows.as_slice(), weights)
    }
}

/// `t` times the equality factors of `a` and `b`.
fn equality_factors(t: Tensor, a: &[F], b: &[F]) -> (r: Tensor)
    requires
        t.wf(),
        a@.len() == b@.len(),
    ensures
        r.wf(),
        r@ == stark_model::equality_factors(t@, elts(a@), elts(b@)),
{
    let ghost xs = elts(a@);
    let ghost ys = elts(b@);
    let ghost t0 = t@;
    let mut e = t;
    let mut i: usize = 0;
    assert(xs.take(0) =~= Seq::<Elt>::empty());
    while i < a.len()
        invariant
            i <= a@.len() == b@.len(),
            xs == elts(a@),
            ys == elts(b@),
            e.wf(),
            e@ == stark_model::equality_factors(t0, xs.take(i as int), ys.take(i as int)),
        decreases a@.len() - i,
    {
        e = e.mul_equality_factor(a[i], b[i]);
        proof {
            assert(xs.take(i + 1).drop_last() =~= xs.take(i as int));
            assert(ys.take(i + 1).drop_last() =~= ys.take(i as int));
        }
        i = i + 1;
    }
    proof {
        assert(xs.take(i as int) =~= xs);
        assert(ys.take(i as int) =~= ys);
    }
    e
}

/// `prod_i (1 + a_i (x) 1 + 1 (x) b_i)` from `1 (x) 1`.
pub fn equality_element(a: &[F], b: &[F]) -> (t: Tensor)
    requires
        a@.len() == b@.len(),
    ensures
        t.wf(),
        t@ == stark_model::equality_element(elts(a@), elts(b@)),
{
    equality_factors(Tensor::one(), a, b)
}

/// The successor element, the coordinates from last to first.
pub fn successor_element(point: &[F], other: &[F]) -> (t: Tensor)
    requires
        point@.len() == other@.len(),
    ensures
        t.wf(),
        t@ == stark_model::successor_element(elts(point@), elts(other@)),
{
    let ghost ps = elts(point@);
    let ghost os = elts(other@);
    let one = F::one();
    let mut done = Tensor::zero();
    let mut carry_a = F::one();
    let mut carry_b = F::one();
    let mut k: usize = point.len();
    while k > 0
        invariant
            k <= point@.len() == other@.len(),
            ps == elts(point@),
            os == elts(other@),
            one@ == field::one128(),
            done.wf(),
            (done@, carry_a@, carry_b@) == stark_model::successor_from(ps, os, k as int),
        decreases k,
    {
        let a = point[k - 1];
        let b = other[k - 1];
        let stepped = done.mul_equality_factor(a, b);
        let ext = Tensor::exterior(carry_a.times(one.plus(a)), carry_b.times(b));
        done = stepped.add(&ext);
        carry_a = carry_a.times(a);
        carry_b = carry_b.times(one.plus(b));
        k = k - 1;
    }
    done
}

// ---------------------------------------------------------------------------
// The constraints at a point.
// ---------------------------------------------------------------------------

/// The row selectors at the bound point.
pub struct Boundary {
    pub first: F,
    pub last: F,
    pub transition: F,
}

impl View for Boundary {
    type V = BoundaryM;

    open spec fn view(&self) -> BoundaryM {
        BoundaryM { first: self.first@, last: self.last@, transition: self.transition@ }
    }
}

impl Boundary {
    pub fn at(point: &[F]) -> (b: Self)
        ensures
            b@ == stark_model::boundary_at(elts(point@)),
    {
        let one = F::one();
        let mut complements: Vec<F> = Vec::new();
        while complements.len() < point.len()
            invariant
                complements@.len() <= point@.len(),
                one@ == field::one128(),
                forall|i: int|
                    0 <= i < complements@.len() ==> (#[trigger] complements@[i])@ == field::plus(
                        field::one128(),
                        point@[i]@,
                    ),
            decreases point@.len() - complements@.len(),
        {
            let k = complements.len();
            complements.push(one.plus(point[k]));
        }
        assert(elts(complements@) =~= stark_model::complements(elts(point@)));
        let first = product(complements.as_slice());
        let last = product(point);
        Boundary { first, last, transition: one.plus(last) }
    }
}

/// Every expression's value at the point, from the opened rows.
fn eval_nodes(nodes: &Vec<Node>, local: &[F], next: &[F], boundary: &Boundary) -> (out: Vec<F>)
    requires
        forall|i: int|
            0 <= i < nodes@.len() ==> (#[trigger] nodes@[i]).well_placed(i, local@.len()),
        local@.len() == next@.len(),
    ensures
        out@.len() == nodes@.len(),
        forall|i: int|
            0 <= i < nodes@.len() ==> (#[trigger] out@[i])@ == stark_model::expr_value(
                nodes@,
                elts(local@),
                elts(next@),
                boundary@,
                i as nat,
            ),
{
    let mut out: Vec<F> = Vec::new();
    while out.len() < nodes.len()
        invariant
            forall|i: int|
                0 <= i < nodes@.len() ==> (#[trigger] nodes@[i]).well_placed(i, local@.len()),
            local@.len() == next@.len(),
            out@.len() <= nodes@.len(),
            forall|i: int|
                0 <= i < out@.len() ==> (#[trigger] out@[i])@ == stark_model::expr_value(
                    nodes@,
                    elts(local@),
                    elts(next@),
                    boundary@,
                    i as nat,
                ),
        decreases nodes@.len() - out@.len(),
    {
        let k = out.len();
        assert(nodes@[k as int].well_placed(k as int, local@.len()));
        let v = match nodes[k] {
            Node::Local(i) => local[i],
            Node::Next(i) => next[i],
            Node::IsFirstRow => boundary.first,
            Node::IsLastRow => boundary.last,
            Node::IsTransition => boundary.transition,
            Node::Constant(c) => c,
            Node::Add(x, y) => out[x].plus(out[y]),
            Node::Sub(x, y) => out[x].plus(out[y]),
            Node::Neg(x) => out[x],
            Node::Mul(x, y) => out[x].times(out[y]),
        };
        out.push(v);
    }
    out
}

/// The alpha-batched constraint at the point: Horner over the constraints in
/// assertion order, `g = sum alpha^{m-1-i} C_i`.
pub fn air_at(air: &Air, local: &[F], next: &[F], boundary: &Boundary, alpha: F) -> (g: F)
    requires
        air.wf(local@.len()),
        local@.len() == next@.len(),
    ensures
        g@ == stark_model::air_at(*air, elts(local@), elts(next@), boundary@, alpha@),
{
    let values = eval_nodes(&air.nodes, local, next, boundary);
    let mut acc = F::zero();
    let mut i: usize = 0;
    while i < air.constraints.len()
        invariant
            i <= air.constraints@.len(),
            air.wf(local@.len()),
            values@.len() == air.nodes@.len(),
            forall|k: int|
                0 <= k < values@.len() ==> (#[trigger] values@[k])@ == stark_model::expr_value(
                    air.nodes@,
                    elts(local@),
                    elts(next@),
                    boundary@,
                    k as nat,
                ),
            acc@ == stark_model::air_horner(
                *air,
                elts(local@),
                elts(next@),
                boundary@,
                alpha@,
                i as nat,
            ),
        decreases air.constraints@.len() - i,
    {
        let c = air.constraints[i];
        assert(air.constraints@[i as int] < air.nodes@.len());
        acc = acc.times(alpha).plus(values[c]);
        i = i + 1;
    }
    acc
}

// ---------------------------------------------------------------------------
// The transcript prefix.
// ---------------------------------------------------------------------------

/// Why the transcript of a proof cannot be followed to its end.
#[derive(Clone, Copy, Debug, PartialEq, Eq, Structural)]
pub enum PrefixError {
    /// The allowed draws gave too few nonzero challenges.
    Draws,
    /// The ring switch's sumcheck has another number of rounds than the column
    /// point asks for.
    Rounds,
}

/// The proof has the number of messages that the configuration asks for.
pub open spec fn transcribable(cfg: Config, d: Data) -> bool {
    &&& ABSORBED <= cfg.log_height + stark_model::column_vars(cfg) <= usize::MAX
    &&& stark_model::column_vars(cfg) < usize::BITS
    &&& reference::narrow(cfg.pow_bits)
    &&& d.round_polys@.len() == cfg.log_height
    &&& cfg.pow_bits > 0 ==> d.pow_witnesses@.len() >= cfg.log_height
    &&& d.values@.len() == 2 * cfg.width
    &&& d.tensor@.len() == DIM
    &&& d.successor is Some <==> stark_model::sends_successor(cfg)
    &&& d.successor matches Some((c, l)) ==> c@.len() == DIM && l@.len() == DIM
}

/// The ring switch's sumcheck has the rounds that the column point leaves.
pub open spec fn rounds_fit(cfg: Config, d: Data, draws: StarkDraws) -> bool {
    let rounds = stark_model::switch_rounds(cfg, draws.prefix);
    rounds > 0 ==> d.rs_sumcheck@.len() == rounds
}

/// One challenge per message.
pub open spec fn challenges_shaped(cfg: Config, d: Data, ch: Challenges) -> bool {
    &&& ch.tau@.len() == cfg.log_height
    &&& ch.r@.len() == cfg.log_height
    &&& ch.c@.len() == stark_model::column_vars(cfg)
    &&& ch.r_batch@.len() == ABSORBED
    &&& ch.alpha_rs is Some <==> stark_model::sends_successor(cfg)
    &&& ch.prefix <= stark_model::column_vars(cfg)
    &&& ch.prefix <= stark_model::packed_vars(cfg)
    &&& ch.r_prime@.len() == stark_model::switch_rounds(cfg, ch.prefix as nat)
}

fn sample_elems<S: Sponge>(s: &mut S, n: usize) -> (out: Vec<F>)
    ensures
        (final(s).st(), elts(out@)) == protocol::draw_elts(S::machine(), old(s).st(), n as nat),
        out@.len() == n,
{
    let ghost first = s.st();
    let mut out: Vec<F> = Vec::new();
    assert(elts(out@) =~= Seq::<Elt>::empty());
    while out.len() < n
        invariant
            out@.len() <= n,
            (s.st(), elts(out@)) == protocol::draw_elts(S::machine(), first, out@.len()),
        decreases n - out@.len(),
    {
        let ghost before = elts(out@);
        let x = s.sample_elem();
        out.push(x);
        assert(elts(out@) =~= before.push(x@));
    }
    out
}

fn is_zero(x: F) -> (r: bool)
    ensures
        r == (x@ == field::zero128()),
{
    let z = F::zero();
    proof {
        if x@ == field::zero128() {
            field::lemma_f_injective(x, z);
        }
    }
    x == z
}

fn is_one(x: F) -> (r: bool)
    ensures
        r == (x@ == field::one128()),
{
    let one = F::one();
    proof {
        if x@ == field::one128() {
            field::lemma_f_injective(x, one);
        }
    }
    x == one
}

/// `n` nonzero draws out of at most `limit`, zeros redrawn.
fn sample_nonzero<S: Sponge>(s: &mut S, n: usize, limit: u64) -> (r: Option<Vec<F>>)
    ensures
        match (stark_model::nonzero_draws(S::machine(), old(s).st(), n as nat, limit as nat), r) {
            (Some((st, xs)), Some(out)) => final(s).st() == st && elts(out@) == xs && out@.len()
                == n,
            (None, None) => true,
            _ => false,
        },
{
    let ghost m = S::machine();
    let ghost first = s.st();
    let ghost want = stark_model::nonzero_draws(m, first, n as nat, limit as nat);
    let mut out: Vec<F> = Vec::new();
    let mut left: u64 = limit;
    proof {
        assert(elts(out@) =~= Seq::<Elt>::empty());
        if want is Some {
            assert(elts(out@) + (want->0).1 =~= (want->0).1);
        }
    }
    while out.len() < n && left > 0
        invariant
            m == S::machine(),
            out@.len() <= n,
            ({
                let rest = stark_model::nonzero_draws(
                    m,
                    s.st(),
                    (n - out@.len()) as nat,
                    left as nat,
                );
                match (want, rest) {
                    (Some((st, xs)), Some((st2, ys))) => st == st2 && xs == elts(out@) + ys,
                    (None, None) => true,
                    _ => false,
                }
            }),
        decreases left,
    {
        let ghost before = elts(out@);
        let x = s.sample_elem();
        left = left - 1;
        if !is_zero(x) {
            out.push(x);
            proof {
                assert(elts(out@) =~= before.push(x@));
                let rest = stark_model::nonzero_draws(
                    m,
                    s.st(),
                    (n - out@.len()) as nat,
                    left as nat,
                );
                if rest is Some {
                    let ys = (rest->0).1;
                    assert(before + (seq![x@] + ys) =~= before.push(x@) + ys);
                }
            }
        }
    }
    if out.len() < n {
        None
    } else {
        proof {
            assert(elts(out@) + Seq::<Elt>::empty() =~= elts(out@));
        }
        Some(out)
    }
}

/// The zerocheck's sumcheck: the bound point, the sum it closed on, grinding.
fn zerocheck_rounds<S: Sponge>(cfg: &Config, d: &Data, s: &mut S) -> (r: (Vec<F>, F, bool))
    requires
        transcribable(*cfg, *d),
    ensures
        (final(s).st(), elts(r.0@), r.1@, r.2) == stark_model::zerocheck_draws(
            S::machine(),
            old(s).st(),
            d.claimed_sum@,
            poly_messages(d.round_polys@),
            elts(d.pow_witnesses@),
            cfg.pow_bits as nat,
        ),
        r.0@.len() == d.round_polys@.len(),
{
    let ghost m = S::machine();
    let ghost first = s.st();
    let ghost polys = poly_messages(d.round_polys@);
    let ghost ws = elts(d.pow_witnesses@);
    let mut running = d.claimed_sum;
    let mut out: Vec<F> = Vec::new();
    let mut ok = true;
    proof {
        assert(polys.take(0) =~= Seq::<Seq<Elt>>::empty());
        assert(elts(out@) =~= Seq::<Elt>::empty());
    }
    while out.len() < d.round_polys.len()
        invariant
            transcribable(*cfg, *d),
            m == S::machine(),
            polys == poly_messages(d.round_polys@),
            ws == elts(d.pow_witnesses@),
            out@.len() <= d.round_polys@.len(),
            (s.st(), elts(out@), running@, ok) == stark_model::zerocheck_draws(
                m,
                first,
                d.claimed_sum@,
                polys.take(out@.len() as int),
                ws,
                cfg.pow_bits as nat,
            ),
        decreases d.round_polys@.len() - out@.len(),
    {
        let k = out.len();
        let ghost before = elts(out@);
        proof {
            assert(polys.take(k + 1).drop_last() =~= polys.take(k as int));
            assert(polys.take(k + 1).last() == elts(d.round_polys@[k as int]@));
        }
        let evals = &d.round_polys[k];
        let mut list: Vec<F> = Vec::new();
        list.push(evals[0]);
        list.push(evals[1]);
        list.push(evals[2]);
        list.push(evals[3]);
        assert(elts(list@) =~= elts(evals@));
        reference::observe_elems(s, list.as_slice());
        if cfg.pow_bits > 0 {
            let ground = s.check_witness(cfg.pow_bits, d.pow_witnesses[k]);
            ok = ok && ground;
        }
        let x = s.sample_elem();
        running = round_poly_at(evals, running, x);
        out.push(x);
        assert(elts(out@) =~= before.push(x@));
    }
    assert(polys.take(polys.len() as int) =~= polys);
    (out, running, ok)
}

/// The ring switch's sumcheck.
fn switch_rounds<S: Sponge>(d: &Data, s: &mut S) -> (out: Vec<F>)
    ensures
        (final(s).st(), elts(out@)) == stark_model::switch_draws(
            S::machine(),
            old(s).st(),
            switch_messages(d.rs_sumcheck@),
        ),
        out@.len() == d.rs_sumcheck@.len(),
{
    let ghost m = S::machine();
    let ghost first = s.st();
    let ghost msgs = switch_messages(d.rs_sumcheck@);
    let mut out: Vec<F> = Vec::new();
    proof {
        assert(msgs.take(0) =~= Seq::<(Elt, Elt)>::empty());
        assert(elts(out@) =~= Seq::<Elt>::empty());
    }
    while out.len() < d.rs_sumcheck.len()
        invariant
            m == S::machine(),
            msgs == switch_messages(d.rs_sumcheck@),
            out@.len() <= d.rs_sumcheck@.len(),
            (s.st(), elts(out@)) == stark_model::switch_draws(
                m,
                first,
                msgs.take(out@.len() as int),
            ),
        decreases d.rs_sumcheck@.len() - out@.len(),
    {
        let k = out.len();
        let ghost before = elts(out@);
        assert(msgs.take(k + 1).drop_last() =~= msgs.take(k as int));
        s.observe_elem(d.rs_sumcheck[k][0]);
        s.observe_elem(d.rs_sumcheck[k][1]);
        let x = s.sample_elem();
        out.push(x);
        assert(elts(out@) =~= before.push(x@));
    }
    assert(msgs.take(msgs.len() as int) =~= msgs);
    out
}

/// The leading coordinates of `point[..limit]` that are exactly 0 or 1.
fn boolean_prefix(point: &[F], limit: usize) -> (n: usize)
    requires
        limit <= point@.len(),
    ensures
        n == stark_model::boolean_prefix(elts(point@).take(limit as int)),
        n <= limit,
{
    let ghost all = elts(point@).take(limit as int);
    let mut n: usize = 0;
    assert(all.skip(0) =~= all);
    while n < limit && (is_zero(point[n]) || is_one(point[n]))
        invariant
            n <= limit <= point@.len(),
            all == elts(point@).take(limit as int),
            stark_model::boolean_prefix(all) == n + stark_model::boolean_prefix(
                all.skip(n as int),
            ),
        decreases limit - n,
    {
        proof {
            assert(all.skip(n as int)[0] == point@[n as int]@);
            assert(all.skip(n as int).skip(1) =~= all.skip(n + 1));
        }
        n = n + 1;
    }
    proof {
        if n < limit {
            assert(all.skip(n as int)[0] == point@[n as int]@);
        }
    }
    n
}

/// The prefix, spending at most `limit` draws on the nonzero challenges.
pub fn prefix_within<S: Sponge>(cfg: &Config, d: &Data, s: &mut S, limit: u64) -> (r: Result<
    Challenges,
    PrefixError,
>)
    requires
        transcribable(*cfg, *d),
    ensures
        match stark_model::prefix(
            S::machine(),
            old(s).st(),
            *cfg,
            d.messages(),
            limit as nat,
        ) {
            Some((st, draws)) => if rounds_fit(*cfg, *d, draws) {
                r is Ok && final(s).st() == st && r->Ok_0.draws() == draws && challenges_shaped(
                    *cfg,
                    *d,
                    r->Ok_0,
                )
            } else {
                r == Err::<Challenges, PrefixError>(PrefixError::Rounds)
            },
            None => r == Err::<Challenges, PrefixError>(PrefixError::Draws),
        },
{
    let ghost m = S::machine();
    let ghost p = d.messages();
    let n = cfg.log_height;
    s.observe_bytes(cfg.seeds.zerocheck.as_slice());
    let alpha = s.sample_elem();
    let beta = s.sample_elem();
    let tau = match sample_nonzero(s, n, limit) {
        Some(tau) => tau,
        None => {
            return Err(PrefixError::Draws);
        },
    };
    let ghost start = s.st();
    s.observe_bytes(cfg.seeds.generic_degree.as_slice());
    s.observe_elem(d.claimed_sum);
    let (r, final_sum, pow_ok) = zerocheck_rounds(cfg, d, s);
    let column_vars = cfg.column_vars();
    s.observe_bytes(cfg.seeds.column_batching.as_slice());
    reference::observe_elems(s, r.as_slice());
    reference::observe_elems(s, d.values.as_slice());
    let c = sample_elems(s, column_vars);
    let mut point = reference::copied(c.as_slice());
    let mut rest = reference::copied(r.as_slice());
    point.append(&mut rest);
    let ghost pt = elts(c@) + elts(r@);
    assert(elts(point@) =~= pt);
    let ghost batched = s.st();
    s.observe_bytes(cfg.seeds.ring_switch.as_slice());
    reference::observe_elems(s, point.as_slice());
    reference::observe_elems(s, d.tensor.as_slice());
    match &d.successor {
        Some((carry, last)) => {
            reference::observe_elems(s, carry.as_slice());
            reference::observe_elems(s, last.as_slice());
        },
        None => {},
    }
    let r_batch = sample_elems(s, ABSORBED);
    let alpha_rs = if cfg.sends_successor() {
        Some(s.sample_elem())
    } else {
        None
    };
    let ghost stated = s.st();
    let packed = cfg.packed_vars();
    let limit2 = if packed < column_vars {
        packed
    } else {
        column_vars
    };
    let prefix = boolean_prefix(point.as_slice(), limit2);
    let rounds = packed - prefix;
    let ghost after = stark_model::prefix_after_tau(
        m,
        start,
        *cfg,
        p,
        alpha@,
        beta@,
        elts(tau@),
    );
    proof {
        assert(stark_model::batching_draws(m, start, *cfg, p) == (
            batched,
            elts(r@),
            final_sum@,
            elts(c@),
            pow_ok,
        ));
        assert(stark_model::statement_draws(m, batched, *cfg, p, pt) == (
            stated,
            elts(r_batch@),
            elt_option(alpha_rs),
        ));
        assert(stark_model::fixable(*cfg, pt) == pt.take(limit2 as int));
        assert(after.1.prefix == prefix);
    }
    let mut r_prime: Vec<F> = Vec::new();
    if rounds > 0 {
        if d.rs_sumcheck.len() != rounds {
            return Err(PrefixError::Rounds);
        }
        s.observe_bytes(cfg.seeds.quadratic.as_slice());
        r_prime = switch_rounds(d, s);
    } else {
        assert(elts(r_prime@) =~= Seq::<Elt>::empty());
    }
    s.observe_elem(d.final_eval);
    let mut surviving: Vec<F> = Vec::new();
    while surviving.len() < prefix
        invariant
            prefix <= point@.len(),
            surviving@.len() <= prefix,
            surviving@ == point@.take(surviving@.len() as int),
        decreases prefix - surviving@.len(),
    {
        let k = surviving.len();
        surviving.push(point[k]);
        assert(point@.take(k + 1) =~= point@.take(k as int).push(point@[k as int]));
    }
    let mut tail = reference::copied(r_prime.as_slice());
    surviving.append(&mut tail);
    assert(elts(surviving@) =~= pt.take(prefix as int) + elts(r_prime@));
    let ch = Challenges {
        alpha,
        beta,
        tau,
        r,
        final_sum,
        c,
        r_batch,
        alpha_rs,
        r_prime,
        prefix,
        surviving,
        pow_ok,
    };
    proof {
        assert(ch.draws() == after.1);
        assert(s.st() == after.0);
    }
    Ok(ch)
}

/// Everything between the commitment and the out-of-domain draws, in
/// transcript order.
pub fn prefix<S: Sponge>(cfg: &Config, d: &Data, s: &mut S) -> (ch: Challenges)
    requires
        transcribable(*cfg, *d),
        stark_model::prefix(
            S::machine(),
            old(s).st(),
            *cfg,
            d.messages(),
            u64::MAX as nat,
        ) matches Some((_, draws)) && rounds_fit(*cfg, *d, draws),
    ensures
        stark_model::prefix(
            S::machine(),
            old(s).st(),
            *cfg,
            d.messages(),
            u64::MAX as nat,
        ) == Some((final(s).st(), ch.draws())),
        challenges_shaped(*cfg, *d, ch),
{
    prefix_within(cfg, d, s, u64::MAX).unwrap()
}

// ---------------------------------------------------------------------------
// The checks.
// ---------------------------------------------------------------------------

/// `sum_i eq(c, i) values[i]`, the values zero-padded to `2^|c|`.
pub fn combine_columns(values: &[F], c: &[F]) -> (v: F)
    requires
        c@.len() < usize::BITS,
        values@.len() <= pow2(c@.len()),
    ensures
        v@ == stark_model::dot(elts(values@), stark_model::eq_table(elts(c@))),
{
    let eq = eq_table(c);
    dot(values, eq.as_slice())
}

/// The successor weights on the tensor's columns.
fn successor_weights(cfg: &Config, eq_low: &Vec<F>) -> (out: Vec<F>)
    requires
        eq_low@.len() == DIM,
    ensures
        elts(out@) == stark_model::successor_weights(*cfg, elts(eq_low@)),
        out@.len() == DIM,
{
    let ghost want = stark_model::successor_weights(*cfg, elts(eq_low@));
    let sends = cfg.sends_successor();
    let height = if sends {
        1
    } else {
        reference::two_to(cfg.log_height)
    };
    let mut out: Vec<F> = Vec::new();
    while out.len() < DIM
        invariant
            eq_low@.len() == DIM,
            want == stark_model::successor_weights(*cfg, elts(eq_low@)),
            sends == stark_model::sends_successor(*cfg),
            height >= 1,
            !sends ==> height == pow2(cfg.log_height as nat),
            out@.len() <= DIM,
            forall|v: int| 0 <= v < out@.len() ==> (#[trigger] out@[v])@ == want[v],
        decreases DIM - out@.len(),
    {
        let v = out.len();
        if sends {
            if v == 0 {
                out.push(F::zero());
            } else {
                out.push(eq_low[v - 1]);
            }
        } else {
            let row = v % height;
            proof {
                vstd::arithmetic::div_mod::lemma_small_mod(0, height as nat);
            }
            let mut acc = F::zero();
            if row != 0 {
                acc = acc.plus(eq_low[v - 1]);
            }
            if row == height - 1 {
                acc = acc.plus(eq_low[v]);
            }
            out.push(acc);
        }
    }
    assert(elts(out@) =~= want);
    out
}

/// The factors `1 + t_i + x_i`.
fn eq_factors(t: &[F], x: &[F]) -> (out: Vec<F>)
    requires
        t@.len() == x@.len(),
    ensures
        elts(out@) == stark_model::eq_factors(elts(t@), elts(x@)),
{
    let one = F::one();
    let mut out: Vec<F> = Vec::new();
    while out.len() < t.len()
        invariant
            t@.len() == x@.len(),
            one@ == field::one128(),
            out@.len() <= t@.len(),
            forall|i: int|
                0 <= i < out@.len() ==> (#[trigger] out@[i])@ == field::plus(
                    field::plus(field::one128(), t@[i]@),
                    x@[i]@,
                ),
        decreases t@.len() - out@.len(),
    {
        let k = out.len();
        out.push(one.plus(t[k]).plus(x[k]));
    }
    assert(elts(out@) =~= stark_model::eq_factors(elts(t@), elts(x@)));
    out
}

fn same(x: F, y: F) -> (r: bool)
    ensures
        r == (x@ == y@),
{
    proof {
        if x@ == y@ {
            field::lemma_f_injective(x, y);
        }
    }
    x == y
}

/// Some of the elements of a slice.
fn part(x: &[F], from: usize, to: usize) -> (r: Vec<F>)
    requires
        from <= to <= x@.len(),
    ensures
        r@ == x@.subrange(from as int, to as int),
{
    let mut r: Vec<F> = Vec::new();
    let n = to - from;
    while r.len() < n
        invariant
            from <= to <= x@.len(),
            n == to - from,
            r@.len() <= n,
            r@ == x@.subrange(from as int, from + r@.len()),
        decreases n - r@.len(),
    {
        let k = r.len();
        r.push(x[from + k]);
        assert(x@.subrange(from as int, from + k + 1) =~= x@.subrange(from as int, from + k).push(
            x@[from + k],
        ));
    }
    r
}

/// The bit-level point.
fn bit_point(ch: &Challenges) -> (point: Vec<F>)
    ensures
        elts(point@) == stark_model::bit_point(ch.draws()),
        point@.len() == ch.c@.len() + ch.r@.len(),
{
    let mut point = reference::copied(ch.c.as_slice());
    let mut rest = reference::copied(ch.r.as_slice());
    point.append(&mut rest);
    assert(elts(point@) =~= elts(ch.c@) + elts(ch.r@));
    point
}

/// The tensors of a proof: the statement's, the carry and the last.
struct Tensors {
    tensor: Tensor,
    successor: Option<(Tensor, Tensor)>,
}

fn tensors_of(cfg: &Config, d: &Data) -> (t: Tensors)
    requires
        transcribable(*cfg, *d),
    ensures
        t.tensor.wf(),
        t.tensor@ == d.messages().tensor,
        t.successor is Some == (d.messages().successor is Some),
        t.successor matches Some((c, l)) ==> c.wf() && l.wf() && d.messages().successor == Some(
            (c@, l@),
        ),
{
    let tensor = Tensor::from_rows(d.tensor.as_slice());
    let successor = match &d.successor {
        Some((c, l)) => Some((Tensor::from_rows(c.as_slice()), Tensor::from_rows(l.as_slice()))),
        None => None,
    };
    Tensors { tensor, successor }
}

/// The zerocheck's closing identity.
fn zerocheck_closes(cfg: &Config, d: &Data, air: &Air, ch: &Challenges) -> (r: bool)
    requires
        transcribable(*cfg, *d),
        challenges_shaped(*cfg, *d, *ch),
        air.wf(cfg.width as nat),
    ensures
        r == stark_model::zerocheck_closes(*cfg, d.messages(), *air, ch.draws()),
{
    let w = cfg.width;
    let local = part(d.values.as_slice(), 0, w);
    let next = part(d.values.as_slice(), w, d.values.len());
    proof {
        assert(elts(local@) =~= elts(d.values@).take(w as int));
        assert(elts(next@) =~= elts(d.values@).skip(w as int));
    }
    let boundary = Boundary::at(ch.r.as_slice());
    let g = air_at(air, local.as_slice(), next.as_slice(), &boundary, ch.alpha);
    let factors = eq_factors(ch.tau.as_slice(), ch.r.as_slice());
    let eq_at = product(factors.as_slice());
    same(ch.final_sum, eq_at.times(g))
}

/// The `eq` table of the coordinates that a packed element absorbs.
fn eq_low(ch: &Challenges) -> (out: Vec<F>)
    requires
        ch.c@.len() + ch.r@.len() >= ABSORBED,
    ensures
        elts(out@) == stark_model::eq_low(ch.draws()),
        out@.len() == DIM,
{
    let point = bit_point(ch);
    let n = point.len();
    let low = part(point.as_slice(), n - ABSORBED, n);
    proof {
        let pt = elts(point@);
        assert(elts(low@) =~= pt.skip(pt.len() - 7));
        vstd::arithmetic::power2::lemma2_to64();
    }
    eq_table(low.as_slice())
}

/// Whether the tensors read the batched columns: current row, next row.
fn readings(cfg: &Config, d: &Data, ch: &Challenges, t: &Tensors) -> (r: (bool, bool))
    requires
        transcribable(*cfg, *d),
        challenges_shaped(*cfg, *d, *ch),
        t.tensor.wf(),
        t.tensor@ == d.messages().tensor,
        t.successor is Some == (d.messages().successor is Some),
        t.successor matches Some((c, l)) ==> c.wf() && l.wf() && d.messages().successor == Some(
            (c@, l@),
        ),
    ensures
        r.0 == stark_model::incoming_ok(*cfg, d.messages(), ch.draws()),
        r.1 == stark_model::successor_ok(*cfg, d.messages(), ch.draws()),
{
    let w = cfg.width;
    let local = part(d.values.as_slice(), 0, w);
    let next_row = part(d.values.as_slice(), w, d.values.len());
    proof {
        assert(elts(local@) =~= elts(d.values@).take(w as int));
        assert(elts(next_row@) =~= elts(d.values@).skip(w as int));
    }
    let column_vars = cfg.column_vars();
    let current = combine_columns(local.as_slice(), ch.c.as_slice());
    let next = combine_columns(next_row.as_slice(), ch.c.as_slice());
    let low = eq_low(ch);
    let columns = t.tensor.columns();
    let incoming = dot(columns.as_slice(), low.as_slice());
    let weights = successor_weights(cfg, &low);
    let mut successor = dot(columns.as_slice(), weights.as_slice());
    match &t.successor {
        Some((carry, last)) => {
            let cc = carry.columns();
            let lc = last.columns();
            proof {
                assert(elts(cc@)[0] == cc@[0]@);
                assert(elts(lc@)[DIM - 1] == lc@[DIM - 1]@);
                assert(elts(low@)[DIM - 1] == low@[DIM - 1]@);
            }
            successor = successor.plus(low[DIM - 1].times(cc[0].plus(lc[DIM - 1])));
        },
        None => {},
    }
    (same(incoming, current), same(successor, next))
}

/// The closing weight of the ring switch.
fn switch_weight(cfg: &Config, d: &Data, ch: &Challenges, eq_batch: &[F]) -> (w: F)
    requires
        transcribable(*cfg, *d),
        challenges_shaped(*cfg, *d, *ch),
        elts(eq_batch@) == stark_model::eq_table(elts(ch.r_batch@)),
        eq_batch@.len() == DIM,
    ensures
        w@ == stark_model::switch_weight(*cfg, d.messages(), ch.draws()),
{
    let ghost draws = ch.draws();
    let point = bit_point(ch);
    let packed = cfg.packed_vars();
    let rest = part(point.as_slice(), ch.prefix, packed);
    let ghost rs = elts(rest@);
    proof {
        assert(rs =~= stark_model::bit_point(draws).take(packed as int).skip(ch.prefix as int));
    }
    let e = equality_element(rest.as_slice(), ch.r_prime.as_slice());
    let plain = e.batch_rows(eq_batch);
    let alpha_rs = ch.alpha_rs;
    match alpha_rs {
        Some(a) => {
            let n = rest.len();
            let kept = cfg.kept_rows();
            let k = n - kept;
            let selector = part(rest.as_slice(), 0, k);
            let rho = part(rest.as_slice(), k, n);
            let r_sel = part(ch.r_prime.as_slice(), 0, k);
            let r_rows = part(ch.r_prime.as_slice(), k, n);
            proof {
                assert(elts(selector@) =~= rs.take(k as int));
                assert(elts(rho@) =~= rs.skip(k as int));
                assert(elts(r_sel@) =~= draws.r_prime.take(k as int));
                assert(elts(r_rows@) =~= draws.r_prime.skip(k as int));
            }
            let carry0 = successor_element(rho.as_slice(), r_rows.as_slice());
            let carry = equality_factors(carry0, selector.as_slice(), r_sel.as_slice());
            let last0 = Tensor::exterior(product(rho.as_slice()), product(r_rows.as_slice()));
            let last = equality_factors(last0, selector.as_slice(), r_sel.as_slice());
            let bc = carry.batch_rows(eq_batch);
            let bl = last.batch_rows(eq_batch);
            plain.plus(a.times(bc.plus(a.times(bl))))
        },
        None => plain,
    }
}

/// The ring switch's closing identity.
fn switch_closes(cfg: &Config, d: &Data, ch: &Challenges, t: &Tensors) -> (r: bool)
    requires
        transcribable(*cfg, *d),
        challenges_shaped(*cfg, *d, *ch),
        t.tensor.wf(),
        t.tensor@ == d.messages().tensor,
        t.successor is Some == (d.messages().successor is Some),
        t.successor matches Some((c, l)) ==> c.wf() && l.wf() && d.messages().successor == Some(
            (c@, l@),
        ),
    ensures
        r == stark_model::switch_closes(*cfg, d.messages(), ch.draws()),
{
    let ghost p = d.messages();
    let ghost draws = ch.draws();
    proof {
        vstd::arithmetic::power2::lemma2_to64();
    }
    let eq_batch = eq_table(ch.r_batch.as_slice());
    let mut sum = t.tensor.batch_rows(eq_batch.as_slice());
    match (&t.successor, ch.alpha_rs) {
        (Some((carry, last)), Some(a)) => {
            let bc = carry.batch_rows(eq_batch.as_slice());
            let bl = last.batch_rows(eq_batch.as_slice());
            sum = sum.plus(a.times(bc.plus(a.times(bl))));
        },
        _ => {},
    }
    let ghost start = stark_model::switch_sum(p, draws);
    assert(sum@ == start);
    let rounds = if d.rs_sumcheck.len() < ch.r_prime.len() {
        d.rs_sumcheck.len()
    } else {
        ch.r_prime.len()
    };
    let ghost msgs = p.rs_sumcheck.take(rounds as int);
    let mut i: usize = 0;
    assert(msgs.take(0) =~= Seq::<(Elt, Elt)>::empty());
    while i < rounds
        invariant
            i <= rounds,
            rounds <= d.rs_sumcheck@.len(),
            rounds <= ch.r_prime@.len(),
            p == d.messages(),
            draws == ch.draws(),
            msgs == p.rs_sumcheck.take(rounds as int),
            sum@ == stark_model::switch_claim(start, msgs.take(i as int), draws.r_prime),
        decreases rounds - i,
    {
        let h0 = d.rs_sumcheck[i][0];
        let h_inf = d.rs_sumcheck[i][1];
        sum = extrapolate_01inf(h0, sum.plus(h0), h_inf, ch.r_prime[i]);
        assert(msgs.take(i + 1).drop_last() =~= msgs.take(i as int));
        i = i + 1;
    }
    assert(msgs.take(i as int) =~= msgs);
    let closing = switch_weight(cfg, d, ch, eq_batch.as_slice());
    same(sum, closing.times(d.final_eval))
}

/// What the ring switch and the zerocheck pin down; the arithmetic after the
/// prefix's transcript.
pub fn check(cfg: &Config, d: &Data, air: &Air, ch: &Challenges) -> (r: Result<(), Error>)
    requires
        transcribable(*cfg, *d),
        challenges_shaped(*cfg, *d, *ch),
        air.wf(cfg.width as nat),
    ensures
        ({
            let p = d.messages();
            let draws = ch.draws();
            let e = if !draws.pow_ok {
                Some(Error::Pow)
            } else if p.claimed_sum != field::zero128() {
                Some(Error::ClaimedSum)
            } else if !stark_model::zerocheck_closes(*cfg, p, *air, draws) {
                Some(Error::Zerocheck)
            } else if !stark_model::incoming_ok(*cfg, p, draws) {
                Some(Error::Incoming)
            } else if !stark_model::successor_ok(*cfg, p, draws) {
                Some(Error::Successor)
            } else if !stark_model::switch_closes(*cfg, p, draws) {
                Some(Error::RingSwitch)
            } else {
                None
            };
            match e {
                Some(err) => r == Err::<(), Error>(err),
                None => r is Ok,
            }
        }),
        r is Ok <==> stark_model::accepts(*cfg, d.messages(), *air, ch.draws()),
{
    if !ch.pow_ok {
        return Err(Error::Pow);
    }
    if !is_zero(d.claimed_sum) {
        return Err(Error::ClaimedSum);
    }
    if !zerocheck_closes(cfg, d, air, ch) {
        return Err(Error::Zerocheck);
    }
    let t = tensors_of(cfg, d);
    let (incoming, successor) = readings(cfg, d, ch, &t);
    if !incoming {
        return Err(Error::Incoming);
    }
    if !successor {
        return Err(Error::Successor);
    }
    if !switch_closes(cfg, d, ch, &t) {
        return Err(Error::RingSwitch);
    }
    Ok(())
}

} // verus!

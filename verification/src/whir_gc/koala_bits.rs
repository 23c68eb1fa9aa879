//! Bit arithmetic on wires: numbers, weight-indexed columns of bits, and the
//! adders over them.
use super::gates::CircuitTrait;
use super::netlist;
use super::netlist::{Env, Netlist};
use vstd::arithmetic::power2::{lemma_pow2_pos, lemma_pow2_unfold, pow2};
use vstd::prelude::*;

verus! {

broadcast use netlist::group_netlist;

// ---------------------------------------------------------------------------
// Numbers.
// ---------------------------------------------------------------------------

/// A bit as a number.
pub open spec fn unit(b: bool) -> int {
    if b {
        1
    } else {
        0
    }
}

/// The number with bits `s`, least significant first.
pub open spec fn number(s: Seq<bool>) -> int
    decreases s.len(),
{
    if s.len() == 0 {
        0
    } else {
        number(s.drop_last()) + unit(s.last()) * pow2((s.len() - 1) as nat)
    }
}

/// How many bits are set.
pub open spec fn ones(s: Seq<bool>) -> int
    decreases s.len(),
{
    if s.len() == 0 {
        0
    } else {
        ones(s.drop_last()) + unit(s.last())
    }
}

/// The number on a vector of wires.
pub open spec fn num(c: Netlist, env: Env, ws: Seq<usize>) -> int {
    number(netlist::bits(c, env, ws))
}

pub broadcast proof fn lemma_number_bounds(s: Seq<bool>)
    ensures
        0 <= #[trigger] number(s) < pow2(s.len()),
    decreases s.len(),
{
    lemma_pow2_pos(s.len());
    if s.len() > 0 {
        lemma_number_bounds(s.drop_last());
        lemma_pow2_unfold(s.len());
        assert(unit(s.last()) * pow2((s.len() - 1) as nat) <= pow2((s.len() - 1) as nat))
            by (nonlinear_arith)
            requires
                0 <= unit(s.last()) <= 1,
                pow2((s.len() - 1) as nat) >= 0,
        ;
        assert(unit(s.last()) * pow2((s.len() - 1) as nat) >= 0) by (nonlinear_arith)
            requires
                0 <= unit(s.last()) <= 1,
                pow2((s.len() - 1) as nat) >= 0,
        ;
    }
}

pub proof fn lemma_number_push(s: Seq<bool>, b: bool)
    ensures
        number(s.push(b)) == number(s) + unit(b) * pow2(s.len()),
        ones(s.push(b)) == ones(s) + unit(b),
{
    assert(s.push(b).drop_last() =~= s);
}

pub proof fn lemma_ones_bounds(s: Seq<bool>)
    ensures
        0 <= ones(s) <= s.len(),
    decreases s.len(),
{
    if s.len() > 0 {
        lemma_ones_bounds(s.drop_last());
    }
}

/// A number cut in two.
pub proof fn lemma_number_cut(s: Seq<bool>, k: nat)
    requires
        k <= s.len(),
    ensures
        number(s) == number(s.take(k as int)) + pow2(k) * number(s.skip(k as int)),
    decreases s.len() - k,
{
    if k == s.len() {
        assert(s.take(k as int) =~= s);
        assert(number(s.skip(k as int)) == 0);
    } else {
        let t = s.drop_last();
        lemma_number_cut(t, k);
        assert(t.take(k as int) =~= s.take(k as int));
        assert(s.skip(k as int).drop_last() =~= t.skip(k as int));
        let n = (s.len() - 1 - k) as nat;
        vstd::arithmetic::power2::lemma_pow2_adds(k, n);
        let u = unit(s.last());
        assert(s.skip(k as int).last() == s.last());
        assert(number(s.skip(k as int)) == number(t.skip(k as int)) + u * pow2(n));
        assert(pow2(k) * (number(t.skip(k as int)) + u * pow2(n)) == pow2(k) * number(
            t.skip(k as int),
        ) + u * (pow2(k) * pow2(n))) by (nonlinear_arith);
    }
}

/// The low bits of a number are its remainder.
pub proof fn lemma_number_low(s: Seq<bool>, k: nat)
    requires
        k <= s.len(),
    ensures
        number(s.take(k as int)) == number(s) % (pow2(k) as int),
        number(s) < pow2(k) ==> number(s.take(k as int)) == number(s),
        number(s.skip(k as int)) == number(s) / (pow2(k) as int),
{
    lemma_pow2_pos(k);
    lemma_number_cut(s, k);
    lemma_number_bounds(s.take(k as int));
    let d = pow2(k) as int;
    let q = number(s.skip(k as int));
    assert(d * q == q * d) by (nonlinear_arith);
    vstd::arithmetic::div_mod::lemma_fundamental_div_mod_converse(
        number(s),
        d,
        q,
        number(s.take(k as int)),
    );
    if number(s) < pow2(k) {
        lemma_number_bounds(s);
        vstd::arithmetic::div_mod::lemma_small_mod(number(s) as nat, pow2(k));
    }
}

/// The values on one more wire.
pub proof fn lemma_bits_push(c: Netlist, env: Env, ws: Seq<usize>, w: usize)
    ensures
        netlist::bits(c, env, ws.push(w)) == netlist::bits(c, env, ws).push(
            netlist::value(c, env, w as int),
        ),
        num(c, env, ws.push(w)) == num(c, env, ws) + unit(netlist::value(c, env, w as int)) * pow2(
            ws.len(),
        ),
        ones(netlist::bits(c, env, ws.push(w))) == ones(netlist::bits(c, env, ws)) + unit(
            netlist::value(c, env, w as int),
        ),
{
    assert(netlist::bits(c, env, ws.push(w)) =~= netlist::bits(c, env, ws).push(
        netlist::value(c, env, w as int),
    ));
    lemma_number_push(netlist::bits(c, env, ws), netlist::value(c, env, w as int));
}

/// The wires of a prefix.
pub proof fn lemma_bits_take(c: Netlist, env: Env, ws: Seq<usize>, k: int)
    requires
        0 <= k < ws.len(),
    ensures
        netlist::bits(c, env, ws).take(k + 1) == netlist::bits(c, env, ws).take(k).push(
            netlist::value(c, env, ws[k] as int),
        ),
        number(netlist::bits(c, env, ws).take(k + 1)) == number(
            netlist::bits(c, env, ws).take(k),
        ) + unit(netlist::value(c, env, ws[k] as int)) * pow2(k as nat),
        ones(netlist::bits(c, env, ws).take(k + 1)) == ones(netlist::bits(c, env, ws).take(k))
            + unit(netlist::value(c, env, ws[k] as int)),
{
    let s = netlist::bits(c, env, ws);
    assert(s.take(k + 1) =~= s.take(k).push(s[k]));
    lemma_number_push(s.take(k), s[k]);
}

// ---------------------------------------------------------------------------
// Columns.
// ---------------------------------------------------------------------------

/// The number `sum_j 2^j |{w in cols[j] : w}|`.
pub open spec fn total(c: Netlist, env: Env, cols: Seq<Vec<usize>>) -> int
    decreases cols.len(),
{
    if cols.len() == 0 {
        0
    } else {
        total(c, env, cols.drop_last()) + ones(netlist::bits(c, env, cols.last()@)) * pow2(
            (cols.len() - 1) as nat,
        )
    }
}

/// The number with every wire set.
pub open spec fn capacity(cols: Seq<Vec<usize>>) -> int
    decreases cols.len(),
{
    if cols.len() == 0 {
        0
    } else {
        capacity(cols.drop_last()) + cols.last()@.len() * pow2((cols.len() - 1) as nat)
    }
}

/// How many wires there are.
pub open spec fn wires_in(cols: Seq<Vec<usize>>) -> nat
    decreases cols.len(),
{
    if cols.len() == 0 {
        0
    } else {
        wires_in(cols.drop_last()) + cols.last()@.len()
    }
}

/// Every wire has been allocated.
pub open spec fn cols_ok(cols: Seq<Vec<usize>>, n: nat) -> bool {
    forall|j: int| 0 <= j < cols.len() ==> netlist::below((#[trigger] cols[j])@, n)
}

pub broadcast proof fn lemma_total_ext(a: Netlist, b: Netlist, env: Env, cols: Seq<Vec<usize>>)
    requires
        #[trigger] netlist::ext(a, b),
        cols_ok(cols, a.next),
    ensures
        #[trigger] total(b, env, cols) == total(a, env, cols),
    decreases cols.len(),
{
    if cols.len() > 0 {
        assert(cols_ok(cols.drop_last(), a.next)) by {
            assert forall|j: int| 0 <= j < cols.len() - 1 implies netlist::below(
                (#[trigger] cols.drop_last()[j])@,
                a.next,
            ) by {
                assert(cols.drop_last()[j] == cols[j]);
            }
        }
        lemma_total_ext(a, b, env, cols.drop_last());
        assert(netlist::below(cols[cols.len() - 1]@, a.next));
    }
}

pub broadcast proof fn lemma_cols_monotone(cols: Seq<Vec<usize>>, n: nat, m: nat)
    requires
        #[trigger] cols_ok(cols, n),
        n <= m,
    ensures
        #[trigger] cols_ok(cols, m),
{
}

/// The number is at most the capacity.
pub proof fn lemma_total_bounds(c: Netlist, env: Env, cols: Seq<Vec<usize>>)
    ensures
        0 <= total(c, env, cols) <= capacity(cols),
    decreases cols.len(),
{
    if cols.len() > 0 {
        lemma_total_bounds(c, env, cols.drop_last());
        let s = netlist::bits(c, env, cols.last()@);
        lemma_ones_bounds(s);
        let w = pow2((cols.len() - 1) as nat) as int;
        let k = ones(s);
        let l = cols.last()@.len() as int;
        assert(0 <= k * w <= l * w) by (nonlinear_arith)
            requires
                0 <= k <= l,
                w >= 0,
        ;
    }
}

/// Replacing one column.
pub proof fn lemma_update(c: Netlist, env: Env, cols: Seq<Vec<usize>>, j: int, col: Vec<usize>)
    requires
        0 <= j < cols.len(),
    ensures
        total(c, env, cols.update(j, col)) == total(c, env, cols) + (ones(
            netlist::bits(c, env, col@),
        ) - ones(netlist::bits(c, env, cols[j]@))) * pow2(j as nat),
        capacity(cols.update(j, col)) == capacity(cols) + (col@.len() - cols[j]@.len()) * pow2(
            j as nat,
        ),
        wires_in(cols.update(j, col)) == wires_in(cols) + col@.len() - cols[j]@.len(),
    decreases cols.len(),
{
    let n = cols.len() - 1;
    let u = cols.update(j, col);
    let w = pow2(n as nat) as int;
    if j == n {
        assert(u.drop_last() =~= cols.drop_last());
        let a = ones(netlist::bits(c, env, col@));
        let b = ones(netlist::bits(c, env, cols[j]@));
        assert(a * w == b * w + (a - b) * w) by (nonlinear_arith);
        let x = col@.len() as int;
        let y = cols[j]@.len() as int;
        assert(x * w == y * w + (x - y) * w) by (nonlinear_arith);
    } else {
        lemma_update(c, env, cols.drop_last(), j, col);
        assert(u.drop_last() =~= cols.drop_last().update(j, col));
        assert(u.last() == cols.last());
    }
}

/// An empty column more.
pub proof fn lemma_empty_column(c: Netlist, env: Env, cols: Seq<Vec<usize>>, col: Vec<usize>)
    requires
        col@.len() == 0,
    ensures
        total(c, env, cols.push(col)) == total(c, env, cols),
        capacity(cols.push(col)) == capacity(cols),
        wires_in(cols.push(col)) == wires_in(cols),
{
    assert(cols.push(col).drop_last() =~= cols);
    assert(ones(netlist::bits(c, env, col@)) == 0);
    assert(0 * pow2(cols.len()) == 0);
}

/// One column more.
pub proof fn lemma_push_column(c: Netlist, env: Env, cols: Seq<Vec<usize>>, col: Vec<usize>)
    ensures
        total(c, env, cols.push(col)) == total(c, env, cols) + ones(netlist::bits(c, env, col@))
            * pow2(cols.len()),
        wires_in(cols.push(col)) == wires_in(cols) + col@.len(),
{
    assert(cols.push(col).drop_last() =~= cols);
}

/// The columns of a prefix.
pub proof fn lemma_take_column(c: Netlist, env: Env, cols: Seq<Vec<usize>>, k: int)
    requires
        0 <= k < cols.len(),
    ensures
        total(c, env, cols.take(k + 1)) == total(c, env, cols.take(k)) + ones(
            netlist::bits(c, env, cols[k]@),
        ) * pow2(k as nat),
        wires_in(cols.take(k + 1)) == wires_in(cols.take(k)) + cols[k]@.len(),
        capacity(cols.take(k + 1)) == capacity(cols.take(k)) + cols[k]@.len() * pow2(k as nat),
{
    assert(cols.take(k + 1).drop_last() =~= cols.take(k));
}

/// Weight-indexed multisets of bits.
pub struct Cols {
    pub cols: Vec<Vec<usize>>,
}

impl Default for Cols {
    fn default() -> (c: Self)
        ensures
            c.cols@.len() == 0,
    {
        Cols { cols: Vec::new() }
    }
}

impl Cols {
    /// One more bit of weight `2^weight`.
    pub(crate) fn push(&mut self, weight: usize, wire: usize)
        requires
            weight < usize::MAX,
        ensures
            forall|c: Netlist, env: Env| #[trigger]
                total(c, env, final(self).cols@) == total(c, env, old(self).cols@) + unit(
                    netlist::value(c, env, wire as int),
                ) * pow2(weight as nat),
            capacity(final(self).cols@) == capacity(old(self).cols@) + pow2(weight as nat),
            final(self).cols@.len() == if old(self).cols@.len() <= weight {
                weight + 1
            } else {
                old(self).cols@.len() as int
            },
            forall|n: nat| #[trigger]
                cols_ok(final(self).cols@, n) <== cols_ok(old(self).cols@, n) && wire < n,
            forall|j: int|
                0 <= j < final(self).cols@.len() && j != weight ==> (
                #[trigger] final(self).cols@[j])@ == (if j < old(self).cols@.len() {
                    old(self).cols@[j]@
                } else {
                    Seq::<usize>::empty()
                }),
            final(self).cols@[weight as int]@ == (if weight < old(self).cols@.len() {
                old(self).cols@[weight as int]@.push(wire)
            } else {
                seq![wire]
            }),
    {
        let ghost start = self.cols@;
        while self.cols.len() <= weight
            invariant
                start.len() <= self.cols@.len(),
                weight < usize::MAX,
                self.cols@.len() <= weight + 1 || self.cols@.len() == start.len(),
                forall|c: Netlist, env: Env| #[trigger]
                    total(c, env, self.cols@) == total(c, env, start),
                capacity(self.cols@) == capacity(start),
                forall|j: int| 0 <= j < start.len() ==> #[trigger] self.cols@[j] == start[j],
                forall|j: int|
                    start.len() <= j < self.cols@.len() ==> (#[trigger] self.cols@[j])@
                        == Seq::<usize>::empty(),
            decreases weight + 1 - self.cols@.len(),
        {
            let ghost before = self.cols@;
            let empty: Vec<usize> = Vec::new();
            self.cols.push(empty);
            proof {
                assert forall|c: Netlist, env: Env| #[trigger]
                    total(c, env, self.cols@) == total(c, env, start) by {
                    lemma_empty_column(c, env, before, empty);
                    assert(total(c, env, before) == total(c, env, start));
                }
                let some = Netlist { next: 2, inputs: 0, gates: Seq::empty(), told: Map::empty() };
                lemma_empty_column(some, |i: int| false, before, empty);
                assert forall|j: int| start.len() <= j < self.cols@.len() implies (
                #[trigger] self.cols@[j])@ == Seq::<usize>::empty() by {
                    if j == before.len() {
                        assert(empty@ =~= Seq::<usize>::empty());
                    } else {
                        assert(self.cols@[j] == before[j]);
                    }
                }
            }
        }
        let ghost grown = self.cols@;
        let ghost old_col = grown[weight as int];
        self.cols[weight].push(wire);
        proof {
            let col = self.cols@[weight as int];
            assert(col@ == old_col@.push(wire));
            assert(self.cols@ =~= grown.update(weight as int, col));
            assert forall|c: Netlist, env: Env| #[trigger]
                total(c, env, self.cols@) == total(c, env, start) + unit(
                    netlist::value(c, env, wire as int),
                ) * pow2(weight as nat) by {
                lemma_update(c, env, grown, weight as int, col);
                lemma_bits_push(c, env, old_col@, wire);
                assert(total(c, env, grown) == total(c, env, start));
            }
            let some = Netlist { next: 2, inputs: 0, gates: Seq::empty(), told: Map::empty() };
            lemma_update(some, |i: int| false, grown, weight as int, col);
            assert(1 * pow2(weight as nat) == pow2(weight as nat));
            assert forall|n: nat| cols_ok(start, n) && wire < n implies #[trigger] cols_ok(
                self.cols@,
                n,
            ) by {
                assert forall|j: int| 0 <= j < self.cols@.len() implies netlist::below(
                    (#[trigger] self.cols@[j])@,
                    n,
                ) by {
                    if j < start.len() {
                        assert(netlist::below(start[j]@, n));
                    }
                    if j != weight {
                        assert(self.cols@[j] == grown[j]);
                    }
                }
            }
            if weight >= start.len() {
                assert(old_col@ =~= Seq::<usize>::empty());
                assert(col@ =~= seq![wire]);
            }
        }
    }

    /// The columns of a number.
    pub(crate) fn from_bits(bits: &[usize]) -> (r: Self)
        ensures
            forall|c: Netlist, env: Env| #[trigger] total(c, env, r.cols@) == num(c, env, bits@),
            r.cols@.len() == bits@.len(),
            forall|j: int| 0 <= j < bits@.len() ==> (#[trigger] r.cols@[j])@ == seq![bits@[j]],
            forall|n: nat| #[trigger] cols_ok(r.cols@, n) <== netlist::below(bits@, n),
    {
        let mut r = Cols::default();
        let n = bits.len();
        let mut j: usize = 0;
        proof {
            assert forall|c: Netlist, env: Env| #[trigger] total(c, env, r.cols@) == number(
                netlist::bits(c, env, bits@).take(0),
            ) by {}
        }
        while j < n
            invariant
                j <= n,
                n == bits@.len(),
                r.cols@.len() == j,
                forall|c: Netlist, env: Env| #[trigger]
                    total(c, env, r.cols@) == number(netlist::bits(c, env, bits@).take(j as int)),
                forall|k: int| 0 <= k < j ==> (#[trigger] r.cols@[k])@ == seq![bits@[k]],
            decreases n - j,
        {
            let ghost before = r.cols@;
            r.push(j, bits[j]);
            proof {
                assert forall|c: Netlist, env: Env| #[trigger]
                    total(c, env, r.cols@) == number(
                        netlist::bits(c, env, bits@).take(j + 1),
                    ) by {
                    lemma_bits_take(c, env, bits@, j as int);
                    assert(total(c, env, before) == number(
                        netlist::bits(c, env, bits@).take(j as int),
                    ));
                }
            }
            j = j + 1;
        }
        proof {
            assert forall|c: Netlist, env: Env| #[trigger] total(c, env, r.cols@) == num(
                c,
                env,
                bits@,
            ) by {
                assert(netlist::bits(c, env, bits@).take(n as int) =~= netlist::bits(c, env, bits@));
            }
            assert forall|m: nat| netlist::below(bits@, m) implies #[trigger] cols_ok(
                r.cols@,
                m,
            ) by {
                assert forall|k: int| 0 <= k < r.cols@.len() implies netlist::below(
                    (#[trigger] r.cols@[k])@,
                    m,
                ) by {
                    assert(r.cols@[k]@ == seq![bits@[k]]);
                }
            }
        }
        r
    }

    /// The bits of `other`, `shift` places up.
    pub(crate) fn extend(&mut self, other: &Cols, shift: usize)
        requires
            other.cols@.len() + shift < usize::MAX,
        ensures
            forall|c: Netlist, env: Env| #[trigger]
                total(c, env, final(self).cols@) == total(c, env, old(self).cols@) + total(
                    c,
                    env,
                    other.cols@,
                ) * pow2(shift as nat),
            forall|n: nat| #[trigger]
                cols_ok(final(self).cols@, n) <== cols_ok(old(self).cols@, n) && cols_ok(
                    other.cols@,
                    n,
                ),
            final(self).cols@.len() <= (if old(self).cols@.len() <= other.cols@.len() + shift {
                other.cols@.len() + shift
            } else {
                old(self).cols@.len() as int
            }),
    {
        let ghost start = self.cols@;
        let n = other.cols.len();
        let mut j: usize = 0;
        proof {
            assert forall|c: Netlist, env: Env| #[trigger] total(c, env, self.cols@) == total(
                c,
                env,
                start,
            ) + total(c, env, other.cols@.take(0)) * pow2(shift as nat) by {
                assert(0 * pow2(shift as nat) == 0);
            }
        }
        while j < n
            invariant
                j <= n,
                n == other.cols@.len(),
                n + shift < usize::MAX,
                forall|c: Netlist, env: Env| #[trigger]
                    total(c, env, self.cols@) == total(c, env, start) + total(
                        c,
                        env,
                        other.cols@.take(j as int),
                    ) * pow2(shift as nat),
                forall|m: nat| #[trigger]
                    cols_ok(self.cols@, m) <== cols_ok(start, m) && cols_ok(other.cols@, m),
                self.cols@.len() <= n + shift || self.cols@.len() <= start.len(),
            decreases n - j,
        {
            let ghost before = self.cols@;
            let col = &other.cols[j];
            let len = col.len();
            let mut k: usize = 0;
            proof {
                assert forall|c: Netlist, env: Env| #[trigger] total(c, env, self.cols@) == total(
                    c,
                    env,
                    before,
                ) + ones(netlist::bits(c, env, col@).take(0)) * pow2((j + shift) as nat) by {
                    assert(0 * pow2((j + shift) as nat) == 0);
                }
            }
            while k < len
                invariant
                    k <= len,
                    len == col@.len(),
                    j < n,
                    n == other.cols@.len(),
                    col == other.cols@[j as int],
                    n + shift < usize::MAX,
                    forall|c: Netlist, env: Env| #[trigger]
                        total(c, env, self.cols@) == total(c, env, before) + ones(
                            netlist::bits(c, env, col@).take(k as int),
                        ) * pow2((j + shift) as nat),
                    forall|m: nat| #[trigger]
                        cols_ok(self.cols@, m) <== cols_ok(start, m) && cols_ok(other.cols@, m),
                    self.cols@.len() <= n + shift || self.cols@.len() <= start.len(),
                decreases len - k,
            {
                let ghost now = self.cols@;
                self.push(j + shift, col[k]);
                proof {
                    let w = pow2((j + shift) as nat) as int;
                    assert forall|c: Netlist, env: Env| #[trigger]
                        total(c, env, self.cols@) == total(c, env, before) + ones(
                            netlist::bits(c, env, col@).take(k + 1),
                        ) * w by {
                        lemma_bits_take(c, env, col@, k as int);
                        let a = ones(netlist::bits(c, env, col@).take(k as int));
                        let u = unit(netlist::value(c, env, col@[k as int] as int));
                        assert(total(c, env, now) == total(c, env, before) + a * w);
                        assert((a + u) * w == a * w + u * w) by (nonlinear_arith);
                    }
                    assert forall|m: nat| cols_ok(start, m) && cols_ok(other.cols@, m) implies
                        #[trigger] cols_ok(self.cols@, m) by {
                        assert(netlist::below(other.cols@[j as int]@, m));
                        assert(cols_ok(now, m));
                    }
                }
                k = k + 1;
            }
            proof {
                assert forall|c: Netlist, env: Env| #[trigger]
                    total(c, env, self.cols@) == total(c, env, start) + total(
                        c,
                        env,
                        other.cols@.take(j + 1),
                    ) * pow2(shift as nat) by {
                    lemma_take_column(c, env, other.cols@, j as int);
                    assert(netlist::bits(c, env, col@).take(len as int) =~= netlist::bits(
                        c,
                        env,
                        col@,
                    ));
                    vstd::arithmetic::power2::lemma_pow2_adds(j as nat, shift as nat);
                    let a = total(c, env, other.cols@.take(j as int));
                    let o = ones(netlist::bits(c, env, col@));
                    let (u, v) = (pow2(j as nat) as int, pow2(shift as nat) as int);
                    assert(total(c, env, before) == total(c, env, start) + a * v);
                    assert((a + o * u) * v == a * v + o * (u * v)) by (nonlinear_arith);
                }
            }
            j = j + 1;
        }
        proof {
            assert(other.cols@.take(n as int) =~= other.cols@);
        }
    }

    /// An upper bound on the number, whose bits are all of weight below `2^31`.
    pub(crate) fn bound(&self) -> (m: u128)
        requires
            folded(self.cols@),
        ensures
            m == capacity(self.cols@),
            m < 0x1_0000_0000_0000_0000_0000_0000,
    {
        let n: usize = if self.cols.len() < 31 {
            self.cols.len()
        } else {
            31
        };
        let mut sum: u128 = 0;
        let mut weight: u128 = 1;
        let mut j: usize = 0;
        proof {
            vstd::arithmetic::power2::lemma2_to64();
            assert(self.cols@.take(0) =~= Seq::<Vec<usize>>::empty());
        }
        while j < n
            invariant
                j <= n,
                n <= self.cols@.len(),
                n <= 31,
                weight == pow2(j as nat),
                weight >= 1,
                weight <= 0x8000_0000,
                sum == capacity(self.cols@.take(j as int)),
                sum <= (weight - 1) * 0xffff_ffff_ffff_ffff,
            decreases n - j,
        {
            let l: u128 = self.cols[j].len() as u128;
            proof {
                lemma_take_column(
                    Netlist { next: 2, inputs: 0, gates: Seq::empty(), told: Map::empty() },
                    |i: int| false,
                    self.cols@,
                    j as int,
                );
                lemma_pow2_unfold((j + 1) as nat);
                lemma_pow2_at_most(j as nat);
                assert(l * weight <= 0xffff_ffff_ffff_ffff * weight) by (nonlinear_arith)
                    requires
                        0 <= l <= 0xffff_ffff_ffff_ffff,
                        weight >= 1,
                ;
                assert(l * weight >= 0) by (nonlinear_arith)
                    requires
                        l >= 0,
                        weight >= 1,
                ;
            }
            sum = sum + l * weight;
            weight = weight * 2;
            j = j + 1;
        }
        proof {
            lemma_folded_capacity(self.cols@, n as nat);
        }
        sum
    }
}

/// No bit of weight `2^31` or more.
pub open spec fn folded(cols: Seq<Vec<usize>>) -> bool {
    forall|j: int| 31 <= j < cols.len() ==> (#[trigger] cols[j])@.len() == 0
}

proof fn lemma_folded_capacity(cols: Seq<Vec<usize>>, n: nat)
    requires
        folded(cols),
        n == if cols.len() < 31 {
            cols.len()
        } else {
            31
        },
    ensures
        capacity(cols) == capacity(cols.take(n as int)),
    decreases cols.len(),
{
    if cols.len() <= 31 {
        assert(cols.take(n as int) =~= cols);
    } else {
        let d = cols.drop_last();
        assert forall|j: int| 31 <= j < d.len() implies (#[trigger] d[j])@.len() == 0 by {
            assert(d[j] == cols[j]);
        }
        lemma_folded_capacity(d, n);
        assert(d.take(n as int) =~= cols.take(n as int));
        assert(cols[cols.len() - 1]@.len() == 0);
        assert(0 * pow2((cols.len() - 1) as nat) == 0);
    }
}

proof fn lemma_pow2_at_most(j: nat)
    requires
        j <= 30,
    ensures
        pow2(j) <= 0x4000_0000,
{
    vstd::arithmetic::power2::lemma2_to64();
    if j < 30 {
        vstd::arithmetic::power2::lemma_pow2_strictly_increases(j, 30);
    }
}

// ---------------------------------------------------------------------------
// Adders.
// ---------------------------------------------------------------------------

/// A full adder: one AND (`maj(a,b,c) = c ^ ((a^c) (b^c))`).
pub(crate) fn full_adder<T: CircuitTrait>(b: &mut T, x: usize, y: usize, c: usize) -> (r: (
    usize,
    usize,
))
    requires
        old(b).inv(),
        x < old(b)@.next,
        y < old(b)@.next,
        c < old(b)@.next,
    ensures
        final(b).inv(),
        netlist::ext(old(b)@, final(b)@),
        r.0 < final(b)@.next,
        r.1 < final(b)@.next,
        forall|env: Env|
            #![trigger netlist::value(final(b)@, env, r.0 as int)]
            #![trigger netlist::value(final(b)@, env, r.1 as int)]
            unit(netlist::value(final(b)@, env, r.0 as int)) + 2 * unit(
                netlist::value(final(b)@, env, r.1 as int),
            ) == unit(netlist::value(old(b)@, env, x as int)) + unit(
                netlist::value(old(b)@, env, y as int),
            ) + unit(netlist::value(old(b)@, env, c as int)),
        netlist::within(old(b)@, final(b)@, 1),
{
    let ghost b0 = b@;
    let xy = b.xor_wire(x, y);
    let ghost b1 = b@;
    let s = b.xor_wire(xy, c);
    let ghost b2 = b@;
    let xc = b.xor_wire(x, c);
    let ghost b3 = b@;
    let yc = b.xor_wire(y, c);
    let ghost b4 = b@;
    let t = b.and_wire(xc, yc);
    let ghost b5 = b@;
    let carry = b.xor_wire(c, t);
    proof {
        netlist::lemma_emit_cost(b0, x, y);
        netlist::lemma_emit_cost(b1, xy, c);
        netlist::lemma_emit_cost(b2, x, c);
        netlist::lemma_emit_cost(b3, y, c);
        netlist::lemma_emit_cost(b4, xc, yc);
        netlist::lemma_emit_cost(b5, c, t);
        assert forall|env: Env|
            #![trigger netlist::value(b@, env, s as int)]
            #![trigger netlist::value(b@, env, carry as int)]
            unit(netlist::value(b@, env, s as int)) + 2 * unit(netlist::value(b@, env, carry as int))
                == unit(netlist::value(b0, env, x as int)) + unit(
                netlist::value(b0, env, y as int),
            ) + unit(netlist::value(b0, env, c as int)) by {
            let (vx, vy, vc) = (
                netlist::value(b0, env, x as int),
                netlist::value(b0, env, y as int),
                netlist::value(b0, env, c as int),
            );
            assert(netlist::value(b1, env, xy as int) == (vx != vy));
            assert(netlist::value(b1, env, c as int) == vc);
            assert(netlist::value(b2, env, s as int) == ((vx != vy) != vc));
            assert(netlist::value(b2, env, x as int) == vx);
            assert(netlist::value(b2, env, c as int) == vc);
            assert(netlist::value(b3, env, xc as int) == (vx != vc));
            assert(netlist::value(b3, env, y as int) == vy);
            assert(netlist::value(b3, env, c as int) == vc);
            assert(netlist::value(b4, env, yc as int) == (vy != vc));
            assert(netlist::value(b4, env, xc as int) == (vx != vc));
            assert(netlist::value(b5, env, t as int) == ((vx != vc) && (vy != vc)));
            assert(netlist::value(b5, env, c as int) == vc);
            assert(netlist::value(b@, env, s as int) == netlist::value(b2, env, s as int));
        }
    }
    (s, carry)
}

/// A half adder: one AND.
fn half_adder<T: CircuitTrait>(b: &mut T, x: usize, y: usize) -> (r: (usize, usize))
    requires
        old(b).inv(),
        x < old(b)@.next,
        y < old(b)@.next,
    ensures
        final(b).inv(),
        netlist::ext(old(b)@, final(b)@),
        r.0 < final(b)@.next,
        r.1 < final(b)@.next,
        forall|env: Env|
            #![trigger netlist::value(final(b)@, env, r.0 as int)]
            #![trigger netlist::value(final(b)@, env, r.1 as int)]
            unit(netlist::value(final(b)@, env, r.0 as int)) + 2 * unit(
                netlist::value(final(b)@, env, r.1 as int),
            ) == unit(netlist::value(old(b)@, env, x as int)) + unit(
                netlist::value(old(b)@, env, y as int),
            ),
        netlist::within(old(b)@, final(b)@, 1),
{
    let ghost b0 = b@;
    let s = b.xor_wire(x, y);
    let ghost b1 = b@;
    let c = b.and_wire(x, y);
    proof {
        netlist::lemma_emit_cost(b0, x, y);
        netlist::lemma_emit_cost(b1, x, y);
        assert forall|env: Env|
            #![trigger netlist::value(b@, env, s as int)]
            #![trigger netlist::value(b@, env, c as int)]
            unit(netlist::value(b@, env, s as int)) + 2 * unit(netlist::value(b@, env, c as int))
                == unit(netlist::value(b0, env, x as int)) + unit(
                netlist::value(b0, env, y as int),
            ) by {
            let (vx, vy) = (netlist::value(b0, env, x as int), netlist::value(b0, env, y as int));
            assert(netlist::value(b1, env, s as int) == (vx != vy));
            assert(netlist::value(b1, env, x as int) == vx);
            assert(netlist::value(b1, env, y as int) == vy);
            assert(netlist::value(b@, env, s as int) == netlist::value(b1, env, s as int));
        }
    }
    (s, c)
}

/// One column of a carry-save round: every three bits become a sum and a carry,
/// and two left over as well. The sums join `current`.
#[verifier::rlimit(40)]
fn squeeze<T: CircuitTrait>(b: &mut T, col: &Vec<usize>, current: &mut Vec<usize>) -> (upcoming: Vec<
    usize,
>)
    requires
        old(b).inv(),
        netlist::below(col@, old(b)@.next),
        netlist::below(old(current)@, old(b)@.next),
    ensures
        final(b).inv(),
        netlist::ext(old(b)@, final(b)@),
        netlist::below(final(current)@, final(b)@.next),
        netlist::below(upcoming@, final(b)@.next),
        final(current)@.len() - old(current)@.len() + upcoming@.len() <= col@.len(),
        col@.len() >= 3 ==> final(current)@.len() - old(current)@.len() + upcoming@.len()
            < col@.len(),
        final(current)@.len() >= old(current)@.len(),
        col@.len() > 0 ==> final(current)@.len() > old(current)@.len(),
        forall|env: Env| #[trigger]
            ones(netlist::bits(final(b)@, env, final(current)@)) + 2 * ones(
                netlist::bits(final(b)@, env, upcoming@),
            ) == ones(netlist::bits(old(b)@, env, old(current)@)) + ones(
                netlist::bits(old(b)@, env, col@),
            ),
{
    let ghost first = b@;
    let ghost cur0 = current@;
    let mut upcoming: Vec<usize> = Vec::new();
    let n = col.len();
    let mut i: usize = 0;
    proof {
        netlist::lemma_ext_refl(first);
        assert forall|env: Env| #[trigger] ones(netlist::bits(b@, env, current@)) + 2 * ones(
            netlist::bits(b@, env, upcoming@),
        ) == ones(netlist::bits(first, env, cur0)) + ones(
            netlist::bits(first, env, col@).take(0),
        ) by {
            assert(ones(netlist::bits(b@, env, upcoming@)) == 0);
        }
    }
    while n - i >= 3
        invariant
            b.inv(),
            netlist::ext(first, b@),
            i <= n,
            n == col@.len(),
            netlist::below(col@, first.next),
            netlist::below(cur0, first.next),
            netlist::below(current@, b@.next),
            netlist::below(upcoming@, b@.next),
            current@.len() >= cur0.len(),
            3 * (current@.len() - cur0.len()) == i,
            3 * upcoming@.len() == i,
            forall|env: Env| #[trigger]
                ones(netlist::bits(b@, env, current@)) + 2 * ones(
                    netlist::bits(b@, env, upcoming@),
                ) == ones(netlist::bits(first, env, cur0)) + ones(
                    netlist::bits(first, env, col@).take(i as int),
                ),
        decreases n - i,
    {
        let ghost c0 = b@;
        let ghost cur = current@;
        let ghost up = upcoming@;
        let (s, c) = full_adder(b, col[i], col[i + 1], col[i + 2]);
        current.push(s);
        upcoming.push(c);
        proof {
            assert forall|env: Env| #[trigger] ones(netlist::bits(b@, env, current@)) + 2 * ones(
                netlist::bits(b@, env, upcoming@),
            ) == ones(netlist::bits(first, env, cur0)) + ones(
                netlist::bits(first, env, col@).take(i + 3),
            ) by {
                lemma_bits_push(b@, env, cur, s);
                lemma_bits_push(b@, env, up, c);
                lemma_bits_take(first, env, col@, i as int);
                lemma_bits_take(first, env, col@, i + 1);
                lemma_bits_take(first, env, col@, i + 2);
                assert(netlist::bits(b@, env, cur) == netlist::bits(c0, env, cur));
                assert(netlist::bits(b@, env, up) == netlist::bits(c0, env, up));
                assert(netlist::value(c0, env, col@[i as int] as int) == netlist::value(
                    first,
                    env,
                    col@[i as int] as int,
                ));
                assert(netlist::value(c0, env, col@[i + 1] as int) == netlist::value(
                    first,
                    env,
                    col@[i + 1] as int,
                ));
                assert(netlist::value(c0, env, col@[i + 2] as int) == netlist::value(
                    first,
                    env,
                    col@[i + 2] as int,
                ));
                assert(netlist::value(b@, env, s as int) == netlist::value(b@, env, s as int));
                assert(ones(netlist::bits(c0, env, cur)) + 2 * ones(netlist::bits(c0, env, up))
                    == ones(netlist::bits(first, env, cur0)) + ones(
                    netlist::bits(first, env, col@).take(i as int),
                ));
            }
        }
        i = i + 3;
    }
    let ghost c0 = b@;
    let ghost cur = current@;
    let ghost up = upcoming@;
    if n - i == 2 {
        let (s, c) = half_adder(b, col[i], col[i + 1]);
        current.push(s);
        upcoming.push(c);
        proof {
            assert forall|env: Env| #[trigger] ones(netlist::bits(b@, env, current@)) + 2 * ones(
                netlist::bits(b@, env, upcoming@),
            ) == ones(netlist::bits(first, env, cur0)) + ones(netlist::bits(first, env, col@)) by {
                lemma_bits_push(b@, env, cur, s);
                lemma_bits_push(b@, env, up, c);
                lemma_bits_take(first, env, col@, i as int);
                lemma_bits_take(first, env, col@, i + 1);
                assert(netlist::bits(first, env, col@).take(n as int) =~= netlist::bits(
                    first,
                    env,
                    col@,
                ));
                assert(netlist::bits(b@, env, cur) == netlist::bits(c0, env, cur));
                assert(netlist::bits(b@, env, up) == netlist::bits(c0, env, up));
                assert(netlist::value(c0, env, col@[i as int] as int) == netlist::value(
                    first,
                    env,
                    col@[i as int] as int,
                ));
                assert(netlist::value(c0, env, col@[i + 1] as int) == netlist::value(
                    first,
                    env,
                    col@[i + 1] as int,
                ));
                assert(ones(netlist::bits(c0, env, cur)) + 2 * ones(netlist::bits(c0, env, up))
                    == ones(netlist::bits(first, env, cur0)) + ones(
                    netlist::bits(first, env, col@).take(i as int),
                ));
            }
        }
    } else if n - i == 1 {
        current.push(col[i]);
        proof {
            assert forall|env: Env| #[trigger] ones(netlist::bits(b@, env, current@)) + 2 * ones(
                netlist::bits(b@, env, upcoming@),
            ) == ones(netlist::bits(first, env, cur0)) + ones(netlist::bits(first, env, col@)) by {
                lemma_bits_push(b@, env, cur, col@[i as int]);
                lemma_bits_take(first, env, col@, i as int);
                assert(netlist::bits(first, env, col@).take(n as int) =~= netlist::bits(
                    first,
                    env,
                    col@,
                ));
                assert(netlist::value(c0, env, col@[i as int] as int) == netlist::value(
                    first,
                    env,
                    col@[i as int] as int,
                ));
                assert(ones(netlist::bits(c0, env, cur)) + 2 * ones(netlist::bits(c0, env, up))
                    == ones(netlist::bits(first, env, cur0)) + ones(
                    netlist::bits(first, env, col@).take(i as int),
                ));
            }
        }
    } else {
        proof {
            assert forall|env: Env| #[trigger] ones(netlist::bits(b@, env, current@)) + 2 * ones(
                netlist::bits(b@, env, upcoming@),
            ) == ones(netlist::bits(first, env, cur0)) + ones(netlist::bits(first, env, col@)) by {
                assert(netlist::bits(first, env, col@).take(n as int) =~= netlist::bits(
                    first,
                    env,
                    col@,
                ));
            }
        }
    }
    upcoming
}

/// One carry-save round over all columns.
#[verifier::rlimit(60)]
fn carry_save<T: CircuitTrait>(b: &mut T, cols: &Vec<Vec<usize>>) -> (next: Vec<Vec<usize>>)
    requires
        old(b).inv(),
        cols_ok(cols@, old(b)@.next),
    ensures
        final(b).inv(),
        netlist::ext(old(b)@, final(b)@),
        cols_ok(next@, final(b)@.next),
        wires_in(next@) <= wires_in(cols@),
        (exists|j: int| 0 <= j < cols@.len() && (#[trigger] cols@[j])@.len() > 2) ==> wires_in(next@)
            < wires_in(cols@),
        cols@.len() > 0 && cols@.last()@.len() > 0 ==> next@.len() >= cols@.len()
            && next@.last()@.len() > 0,
        forall|env: Env| #[trigger]
            total(final(b)@, env, next@) == total(old(b)@, env, cols@),
{
    let ghost first = b@;
    let mut next: Vec<Vec<usize>> = Vec::new();
    let mut current: Vec<usize> = Vec::new();
    let n = cols.len();
    let mut j: usize = 0;
    proof {
        netlist::lemma_ext_refl(first);
        assert forall|env: Env| #[trigger] total(b@, env, next@) + ones(
            netlist::bits(b@, env, current@),
        ) * pow2(0) == total(first, env, cols@.take(0)) by {
            assert(ones(netlist::bits(b@, env, current@)) == 0);
            assert(0 * pow2(0) == 0);
        }
    }
    while j < n
        invariant
            b.inv(),
            netlist::ext(first, b@),
            j <= n,
            n == cols@.len(),
            cols_ok(cols@, first.next),
            next@.len() == j,
            cols_ok(next@, b@.next),
            netlist::below(current@, b@.next),
            wires_in(next@) + current@.len() <= wires_in(cols@.take(j as int)),
            (exists|k: int| 0 <= k < j && (#[trigger] cols@[k])@.len() > 2) ==> wires_in(next@)
                + current@.len() < wires_in(cols@.take(j as int)),
            j > 0 && cols@[j - 1]@.len() > 0 ==> next@[j - 1]@.len() > 0,
            forall|env: Env| #[trigger]
                total(b@, env, next@) + ones(netlist::bits(b@, env, current@)) * pow2(j as nat)
                    == total(first, env, cols@.take(j as int)),
        decreases n - j,
    {
        let ghost c0 = b@;
        let ghost cur = current@;
        let ghost done = next@;
        assert(netlist::below(cols@[j as int]@, first.next));
        let upcoming = squeeze(b, &cols[j], &mut current);
        let ghost mid = current@;
        let ghost col = current;
        next.push(current);
        current = upcoming;
        proof {
            lemma_take_column(first, |i: int| false, cols@, j as int);
            lemma_push_column(first, |i: int| false, done, col);
            assert forall|k: int| 0 <= k < next@.len() implies netlist::below(
                (#[trigger] next@[k])@,
                b@.next,
            ) by {
                if k < j {
                    assert(next@[k] == done[k]);
                    assert(netlist::below(done[k]@, c0.next));
                }
            }
            assert forall|env: Env| #[trigger] total(b@, env, next@) + ones(
                netlist::bits(b@, env, current@),
            ) * pow2((j + 1) as nat) == total(first, env, cols@.take(j + 1)) by {
                lemma_take_column(first, env, cols@, j as int);
                lemma_push_column(b@, env, done, col);
                lemma_pow2_unfold((j + 1) as nat);
                let w = pow2(j as nat) as int;
                let (a, u) = (
                    ones(netlist::bits(b@, env, mid)),
                    ones(netlist::bits(b@, env, current@)),
                );
                let (o, k) = (
                    ones(netlist::bits(c0, env, cur)),
                    ones(netlist::bits(first, env, cols@[j as int]@)),
                );
                assert(netlist::bits(c0, env, cols@[j as int]@) == netlist::bits(
                    first,
                    env,
                    cols@[j as int]@,
                ));
                assert(a + 2 * u == o + k);
                lemma_total_ext(c0, b@, env, done);
                assert(total(c0, env, done) + o * w == total(first, env, cols@.take(j as int)));
                assert(a * w + u * (2 * w) == o * w + k * w) by (nonlinear_arith)
                    requires
                        a + 2 * u == o + k,
                ;
            }
            if exists|k: int| 0 <= k < j + 1 && (#[trigger] cols@[k])@.len() > 2 {
                let k = choose|k: int| 0 <= k < j + 1 && (#[trigger] cols@[k])@.len() > 2;
                if k < j {
                    assert(0 <= k < j && cols@[k]@.len() > 2);
                }
            }
        }
        j = j + 1;
    }
    let ghost last = current;
    let ghost done = next@;
    next.push(current);
    proof {
        lemma_push_column(first, |i: int| false, done, last);
        assert(cols@.take(n as int) =~= cols@);
        assert forall|env: Env| #[trigger] total(b@, env, next@) == total(first, env, cols@) by {
            lemma_push_column(b@, env, done, last);
            assert(total(b@, env, done) + ones(netlist::bits(b@, env, last@)) * pow2(n as nat)
                == total(first, env, cols@.take(n as int)));
        }
        assert forall|k: int| 0 <= k < next@.len() implies netlist::below(
            (#[trigger] next@[k])@,
            b@.next,
        ) by {
            if k < n {
                assert(next@[k] == done[k]);
            }
        }
    }
    while next.len() > 0 && next[next.len() - 1].len() == 0
        invariant
            b.inv(),
            netlist::ext(first, b@),
            n == cols@.len(),
            cols_ok(next@, b@.next),
            wires_in(next@) == wires_in(done.push(last)),
            n > 0 && cols@[n - 1]@.len() > 0 ==> next@.len() >= n && done[n - 1]@.len() > 0
                && next@[n - 1] == done[n - 1],
            forall|env: Env| #[trigger] total(b@, env, next@) == total(first, env, cols@),
        decreases next@.len(),
    {
        let ghost before = next@;
        let popped = next.pop();
        proof {
            let m = before.len() - 1;
            assert(next@ =~= before.drop_last());
            assert(before =~= next@.push(before[m]));
            assert forall|env: Env| #[trigger] total(b@, env, next@) == total(
                first,
                env,
                cols@,
            ) by {
                lemma_empty_column(b@, env, next@, before[m]);
                assert(total(b@, env, before) == total(first, env, cols@));
            }
            lemma_empty_column(b@, |i: int| false, next@, before[m]);
            assert forall|k: int| 0 <= k < next@.len() implies netlist::below(
                (#[trigger] next@[k])@,
                b@.next,
            ) by {
                assert(next@[k] == before[k]);
            }
        }
    }
    next
}

/// No column holds more than two bits.
pub open spec fn narrow(cols: Seq<Vec<usize>>) -> bool {
    forall|j: int| 0 <= j < cols.len() ==> (#[trigger] cols[j])@.len() <= 2
}

/// Whether a column holds more than two bits.
fn is_wide(cols: &Vec<Vec<usize>>) -> (r: bool)
    ensures
        r == !narrow(cols@),
{
    let mut j: usize = 0;
    while j < cols.len()
        invariant
            j <= cols@.len(),
            forall|k: int| 0 <= k < j ==> (#[trigger] cols@[k])@.len() <= 2,
        decreases cols@.len() - j,
    {
        if cols[j].len() > 2 {
            assert(cols@[j as int]@.len() > 2);
            return true;
        }
        j = j + 1;
    }
    false
}

/// The value of a carry.
pub open spec fn carried(c: Netlist, env: Env, carry: Option<usize>) -> int {
    match carry {
        Some(w) => unit(netlist::value(c, env, w as int)),
        None => 0,
    }
}

/// A carry wire that has been allocated.
pub open spec fn carry_ok(carry: Option<usize>, n: nat) -> bool {
    carry matches Some(w) ==> w < n
}

/// One column of the ripple: at most two bits and a carry to a bit and a carry.
fn ripple_column<T: CircuitTrait>(b: &mut T, col: &Vec<usize>, carry: Option<usize>) -> (r: (
    usize,
    Option<usize>,
))
    requires
        old(b).inv(),
        col@.len() <= 2,
        netlist::below(col@, old(b)@.next),
        carry_ok(carry, old(b)@.next),
    ensures
        final(b).inv(),
        netlist::ext(old(b)@, final(b)@),
        r.0 < final(b)@.next,
        carry_ok(r.1, final(b)@.next),
        forall|env: Env| #[trigger]
            unit(netlist::value(final(b)@, env, r.0 as int)) + 2 * carried(final(b)@, env, r.1)
                == ones(netlist::bits(old(b)@, env, col@)) + carried(old(b)@, env, carry),
        netlist::within(old(b)@, final(b)@, 1),
{
    let ghost first = b@;
    let n = col.len();
    proof {
        b.lemma_inv();
        netlist::lemma_ext_refl(first);
        assert forall|env: Env| true implies #[trigger] ones(netlist::bits(first, env, col@))
            == (if n == 0 {
            0
        } else if n == 1 {
            unit(netlist::value(first, env, col@[0] as int))
        } else {
            unit(netlist::value(first, env, col@[0] as int)) + unit(
                netlist::value(first, env, col@[1] as int),
            )
        }) by {
            let s = netlist::bits(first, env, col@);
            assert(s.take(0) =~= Seq::<bool>::empty());
            assert(s.take(n as int) =~= s);
            if n >= 1 {
                lemma_bits_take(first, env, col@, 0);
            }
            if n == 2 {
                lemma_bits_take(first, env, col@, 1);
            }
        }
        assert forall|env: Env| #[trigger] netlist::value(first, env, 0) == false by {
            netlist::lemma_constants(first, env);
        }
    }
    match carry {
        None => {
            if n == 0 {
                let z = b.zero();
                (z, None)
            } else if n == 1 {
                (col[0], None)
            } else {
                let (s, c) = half_adder(b, col[0], col[1]);
                (s, Some(c))
            }
        },
        Some(cr) => {
            if n == 0 {
                (cr, None)
            } else if n == 1 {
                let (s, c) = half_adder(b, col[0], cr);
                (s, Some(c))
            } else {
                let (s, c) = full_adder(b, col[0], col[1], cr);
                (s, Some(c))
            }
        },
    }
}

/// The ripple over at most two bits per column.
#[verifier::rlimit(30)]
fn ripple<T: CircuitTrait>(b: &mut T, cols: &Vec<Vec<usize>>) -> (out: Vec<usize>)
    requires
        old(b).inv(),
        cols_ok(cols@, old(b)@.next),
        narrow(cols@),
    ensures
        final(b).inv(),
        netlist::ext(old(b)@, final(b)@),
        netlist::below(out@, final(b)@.next),
        cols@.len() <= out@.len() <= cols@.len() + 1,
        forall|env: Env| #[trigger]
            netlist::bits(final(b)@, env, out@).len() == out@.len() && num(final(b)@, env, out@)
                == total(old(b)@, env, cols@),
        netlist::within(old(b)@, final(b)@, cols@.len() as int),
{
    let ghost first = b@;
    let mut out: Vec<usize> = Vec::new();
    let mut carry: Option<usize> = None;
    let n = cols.len();
    let mut j: usize = 0;
    proof {
        netlist::lemma_ext_refl(first);
        assert forall|env: Env| #[trigger] num(b@, env, out@) + carried(b@, env, carry) * pow2(0)
            == total(first, env, cols@.take(0)) by {
            assert(0 * pow2(0) == 0);
        }
    }
    while j < n
        invariant
            b.inv(),
            netlist::ext(first, b@),
            netlist::within(first, b@, j as int),
            j <= n,
            n == cols@.len(),
            cols_ok(cols@, first.next),
            narrow(cols@),
            out@.len() == j,
            netlist::below(out@, b@.next),
            carry_ok(carry, b@.next),
            forall|env: Env| #[trigger]
                num(b@, env, out@) + carried(b@, env, carry) * pow2(j as nat) == total(
                    first,
                    env,
                    cols@.take(j as int),
                ),
        decreases n - j,
    {
        let ghost c0 = b@;
        let ghost out0 = out@;
        let ghost carry0 = carry;
        assert(netlist::below(cols@[j as int]@, first.next));
        assert(cols@[j as int]@.len() <= 2);
        let (s, c) = ripple_column(b, &cols[j], carry);
        out.push(s);
        carry = c;
        proof {
            assert forall|env: Env| #[trigger] num(b@, env, out@) + carried(b@, env, carry) * pow2(
                (j + 1) as nat,
            ) == total(first, env, cols@.take(j + 1)) by {
                lemma_take_column(first, env, cols@, j as int);
                lemma_bits_push(b@, env, out0, s);
                lemma_pow2_unfold((j + 1) as nat);
                assert(netlist::bits(b@, env, out0) == netlist::bits(c0, env, out0));
                assert(netlist::bits(c0, env, cols@[j as int]@) == netlist::bits(
                    first,
                    env,
                    cols@[j as int]@,
                ));
                let w = pow2(j as nat) as int;
                let (x, y) = (unit(netlist::value(b@, env, s as int)), carried(b@, env, c));
                let (o, k) = (
                    ones(netlist::bits(first, env, cols@[j as int]@)),
                    carried(c0, env, carry0),
                );
                assert(x + 2 * y == o + k);
                assert(num(c0, env, out0) + k * w == total(first, env, cols@.take(j as int)));
                assert(x * w + y * (2 * w) == o * w + k * w) by (nonlinear_arith)
                    requires
                        x + 2 * y == o + k,
                ;
            }
        }
        j = j + 1;
    }
    proof {
        assert(cols@.take(n as int) =~= cols@);
    }
    let ghost out0 = out@;
    match carry {
        Some(c) => {
            out.push(c);
            proof {
                assert forall|env: Env| #[trigger] netlist::bits(b@, env, out@).len() == out@.len()
                    && num(b@, env, out@) == total(first, env, cols@) by {
                    lemma_bits_push(b@, env, out0, c);
                    assert(num(b@, env, out0) + carried(b@, env, carry) * pow2(n as nat) == total(
                        first,
                        env,
                        cols@.take(n as int),
                    ));
                }
            }
        },
        None => {
            proof {
                assert forall|env: Env| #[trigger] netlist::bits(b@, env, out@).len() == out@.len()
                    && num(b@, env, out@) == total(first, env, cols@) by {
                    assert(num(b@, env, out0) + carried(b@, env, carry) * pow2(n as nat) == total(
                        first,
                        env,
                        cols@.take(n as int),
                    ));
                    assert(0 * pow2(n as nat) == 0);
                }
            }
        },
    }
    out
}

fn copy_cols(cols: &Vec<Vec<usize>>, Ghost(n): Ghost<nat>) -> (r: Vec<Vec<usize>>)
    requires
        cols_ok(cols@, n),
    ensures
        r@.len() == cols@.len(),
        forall|j: int| 0 <= j < cols@.len() ==> (#[trigger] r@[j])@ == cols@[j]@,
        cols_ok(r@, n),
        wires_in(r@) == wires_in(cols@),
        forall|c: Netlist, env: Env| #[trigger] total(c, env, r@) == total(c, env, cols@),
{
    let mut r: Vec<Vec<usize>> = Vec::new();
    let mut j: usize = 0;
    while j < cols.len()
        invariant
            j <= cols@.len(),
            r@.len() == j,
            cols_ok(cols@, n),
            forall|k: int| 0 <= k < j ==> (#[trigger] r@[k])@ == cols@[k]@,
        decreases cols@.len() - j,
    {
        let mut col: Vec<usize> = Vec::new();
        let mut k: usize = 0;
        while k < cols[j].len()
            invariant
                j < cols@.len(),
                k <= cols@[j as int]@.len(),
                col@ == cols@[j as int]@.take(k as int),
            decreases cols@[j as int]@.len() - k,
        {
            col.push(cols[j][k]);
            assert(cols@[j as int]@.take(k + 1) =~= cols@[j as int]@.take(k as int).push(
                cols@[j as int]@[k as int],
            ));
            k = k + 1;
        }
        assert(cols@[j as int]@.take(k as int) =~= cols@[j as int]@);
        r.push(col);
        j = j + 1;
    }
    proof {
        assert forall|k: int| 0 <= k < r@.len() implies netlist::below((#[trigger] r@[k])@, n) by {
            assert(netlist::below(cols@[k]@, n));
        }
        assert forall|c: Netlist, env: Env| #[trigger] total(c, env, r@) == total(
            c,
            env,
            cols@,
        ) by {
            lemma_same_total(c, env, r@, cols@);
        }
        lemma_same_total(
            Netlist { next: 2, inputs: 0, gates: Seq::empty(), told: Map::empty() },
            |i: int| false,
            r@,
            cols@,
        );
    }
    r
}

proof fn lemma_same_total(c: Netlist, env: Env, a: Seq<Vec<usize>>, b: Seq<Vec<usize>>)
    requires
        a.len() == b.len(),
        forall|j: int| 0 <= j < a.len() ==> (#[trigger] a[j])@ == b[j]@,
    ensures
        total(c, env, a) == total(c, env, b),
        wires_in(a) == wires_in(b),
    decreases a.len(),
{
    if a.len() > 0 {
        assert forall|j: int| 0 <= j < a.len() - 1 implies (#[trigger] a.drop_last()[j])@
            == b.drop_last()[j]@ by {
            assert(a.drop_last()[j] == a[j]);
        }
        lemma_same_total(c, env, a.drop_last(), b.drop_last());
        assert(a[a.len() - 1]@ == b[b.len() - 1]@);
    }
}

impl Cols {
    /// The single binary number: carry-save compression to two bits per column,
    /// then a ripple.
    pub(crate) fn compress<T: CircuitTrait>(&self, b: &mut T) -> (out: Vec<usize>)
        requires
            old(b).inv(),
            cols_ok(self.cols@, old(b)@.next),
        ensures
            final(b).inv(),
            netlist::ext(old(b)@, final(b)@),
            netlist::below(out@, final(b)@.next),
            self.cols@.len() > 0 && self.cols@.last()@.len() > 0 ==> out@.len()
                >= self.cols@.len(),
            forall|env: Env| #[trigger]
                netlist::bits(final(b)@, env, out@).len() == out@.len() && num(
                    final(b)@,
                    env,
                    out@,
                ) == total(old(b)@, env, self.cols@),
            narrow(self.cols@) ==> netlist::within(
                old(b)@,
                final(b)@,
                self.cols@.len() as int,
            ),
    {
        let ghost first = b@;
        let mut cols = copy_cols(&self.cols, Ghost(b@.next));
        proof {
            netlist::lemma_ext_refl(first);
        }
        let mut wide = is_wide(&cols);
        while wide
            invariant
                b.inv(),
                netlist::ext(first, b@),
                cols_ok(cols@, b@.next),
                wide == !narrow(cols@),
                narrow(self.cols@) ==> !wide && b@ == first && cols@.len() == self.cols@.len(),
                self.cols@.len() > 0 && self.cols@.last()@.len() > 0 ==> cols@.len()
                    >= self.cols@.len() && cols@.last()@.len() > 0,
                forall|env: Env| #[trigger]
                    total(b@, env, cols@) == total(first, env, self.cols@),
            decreases wires_in(cols@),
        {
            let ghost c0 = b@;
            let ghost before = cols@;
            cols = carry_save(b, &cols);
            proof {
                assert forall|env: Env| #[trigger] total(b@, env, cols@) == total(
                    first,
                    env,
                    self.cols@,
                ) by {
                    assert(total(c0, env, before) == total(first, env, self.cols@));
                }
            }
            wide = is_wide(&cols);
        }
        let ghost c1 = b@;
        let out = ripple(b, &cols);
        proof {
            assert forall|env: Env| #[trigger] netlist::bits(b@, env, out@).len() == out@.len()
                && num(b@, env, out@) == total(first, env, self.cols@) by {
                assert(total(c1, env, cols@) == total(first, env, self.cols@));
            }
        }
        out
    }
}

// ---------------------------------------------------------------------------
// Constants, differences, selection.
// ---------------------------------------------------------------------------

/// The first `k` bits, or all of them.
pub open spec fn low(s: Seq<bool>, k: nat) -> Seq<bool> {
    if k <= s.len() {
        s.take(k as int)
    } else {
        s
    }
}

/// One position of `x + c`: the bit of `x` if it has one, the constant's bit and
/// the carry, to a bit and a carry.
fn add_const_bit<T: CircuitTrait>(b: &mut T, xi: Option<usize>, ci: bool, carry: Option<usize>) -> (r: (
    usize,
    Option<usize>,
))
    requires
        old(b).inv(),
        carry_ok(xi, old(b)@.next),
        carry_ok(carry, old(b)@.next),
    ensures
        final(b).inv(),
        netlist::ext(old(b)@, final(b)@),
        r.0 < final(b)@.next,
        carry_ok(r.1, final(b)@.next),
        forall|env: Env| #[trigger]
            unit(netlist::value(final(b)@, env, r.0 as int)) + 2 * carried(final(b)@, env, r.1)
                == carried(old(b)@, env, xi) + unit(ci) + carried(old(b)@, env, carry),
        netlist::within(old(b)@, final(b)@, 1),
{
    let ghost first = b@;
    proof {
        b.lemma_inv();
        netlist::lemma_ext_refl(first);
        assert forall|env: Env| #[trigger] netlist::value(first, env, 0) == false by {
            netlist::lemma_constants(first, env);
        }
        assert forall|env: Env| #[trigger] netlist::value(first, env, 1) == true by {
            netlist::lemma_constants(first, env);
        }
    }
    match (xi, ci, carry) {
        (None, false, None) => {
            let z = b.zero();
            (z, None)
        },
        (None, false, Some(cr)) => (cr, None),
        (None, true, None) => {
            let one = b.one();
            (one, None)
        },
        (None, true, Some(cr)) => {
            // 1 + carry: the sum is the carry negated, the carry stays.
            let one = b.one();
            let s = b.xor_wire(cr, one);
            proof {
                netlist::lemma_emit_cost(first, cr, one);
                assert forall|env: Env| #[trigger] unit(netlist::value(b@, env, s as int)) + 2
                    * carried(b@, env, carry) == carried(first, env, xi) + unit(ci) + carried(
                    first,
                    env,
                    carry,
                ) by {
                    assert(netlist::value(first, env, 1) == true);
                    assert(netlist::value(b@, env, cr as int) == netlist::value(
                        first,
                        env,
                        cr as int,
                    ));
                }
            }
            (s, Some(cr))
        },
        (Some(w), false, None) => (w, None),
        (Some(w), false, Some(cr)) => {
            let (s, c) = half_adder(b, w, cr);
            (s, Some(c))
        },
        (Some(w), true, None) => {
            let one = b.one();
            let s = b.xor_wire(w, one);
            proof {
                netlist::lemma_emit_cost(first, w, one);
                assert forall|env: Env| #[trigger] unit(netlist::value(b@, env, s as int)) + 2
                    * carried(b@, env, xi) == carried(first, env, xi) + unit(ci) + carried(
                    first,
                    env,
                    carry,
                ) by {
                    assert(netlist::value(first, env, 1) == true);
                    assert(netlist::value(b@, env, w as int) == netlist::value(
                        first,
                        env,
                        w as int,
                    ));
                }
            }
            (s, Some(w))
        },
        (Some(w), true, Some(cr)) => {
            // w + 1 + carry: the sum is the parity negated, the carry is the or.
            let one = b.one();
            let s = b.xor_wire(w, cr);
            let ghost c1 = b@;
            let t = b.xor_wire(s, one);
            let ghost c2 = b@;
            let c = b.or_wire(w, cr);
            proof {
                netlist::lemma_emit_cost(first, w, cr);
                netlist::lemma_emit_cost(c1, s, one);
                netlist::lemma_emit_cost(c2, w, cr);
                assert forall|env: Env| #[trigger] unit(netlist::value(b@, env, t as int)) + 2
                    * carried(b@, env, Some(c)) == carried(first, env, xi) + unit(ci) + carried(
                    first,
                    env,
                    carry,
                ) by {
                    assert(netlist::value(first, env, 1) == true);
                    assert(netlist::value(c1, env, 1) == netlist::value(first, env, 1));
                    assert(netlist::value(c2, env, w as int) == netlist::value(
                        first,
                        env,
                        w as int,
                    ));
                    assert(netlist::value(c2, env, cr as int) == netlist::value(
                        first,
                        env,
                        cr as int,
                    ));
                    assert(netlist::value(b@, env, t as int) == netlist::value(
                        c2,
                        env,
                        t as int,
                    ));
                }
            }
            (t, Some(c))
        },
    }
}

/// One more low bit.
proof fn lemma_low_step(c: Netlist, env: Env, x: Seq<usize>, i: nat, xi: Option<usize>)
    requires
        xi == (if i < x.len() {
            Some(x[i as int])
        } else {
            None
        }),
    ensures
        number(low(netlist::bits(c, env, x), i + 1)) == number(low(netlist::bits(c, env, x), i))
            + carried(c, env, xi) * pow2(i),
{
    let s = netlist::bits(c, env, x);
    if i < x.len() {
        lemma_bits_take(c, env, x, i as int);
    } else {
        assert(low(s, i + 1) =~= low(s, i)) by {
            if i == x.len() {
                assert(s.take(i as int) =~= s);
            }
        }
        assert(0 * pow2(i) == 0);
    }
}

/// A number that is a low part plus a multiple of `2^w` has that low part.
proof fn lemma_residue(n: int, r: int, q: int, w: nat)
    requires
        n == r + pow2(w) * q,
        0 <= r < pow2(w),
    ensures
        r == n % (pow2(w) as int),
{
    lemma_pow2_pos(w);
    assert(pow2(w) * q == q * pow2(w)) by (nonlinear_arith);
    vstd::arithmetic::div_mod::lemma_fundamental_div_mod_converse(n, pow2(w) as int, q, r);
}

/// `x + c` for a constant `c`, modulo `2^width`.
#[verifier::rlimit(40)]
pub(crate) fn add_const<T: CircuitTrait>(b: &mut T, x: &[usize], c: u128, width: usize) -> (out: Vec<
    usize,
>)
    requires
        old(b).inv(),
        netlist::below(x@, old(b)@.next),
    ensures
        final(b).inv(),
        netlist::ext(old(b)@, final(b)@),
        netlist::below(out@, final(b)@.next),
        out@.len() == width,
        forall|env: Env| #[trigger]
            netlist::bits(final(b)@, env, out@).len() == width && num(final(b)@, env, out@) == (num(
                old(b)@,
                env,
                x@,
            ) + c) % (pow2(width as nat) as int),
        netlist::within(old(b)@, final(b)@, width as int),
{
    let ghost first = b@;
    let mut out: Vec<usize> = Vec::new();
    let mut carry: Option<usize> = None;
    let mut high: u128 = c;
    let ghost mut part: int = 0;
    let n = x.len();
    let mut i: usize = 0;
    proof {
        netlist::lemma_ext_refl(first);
        vstd::arithmetic::power2::lemma2_to64();
        assert forall|env: Env| #[trigger] num(b@, env, out@) + carried(b@, env, carry) * pow2(0)
            == number(low(netlist::bits(first, env, x@), 0)) + part by {
            assert(low(netlist::bits(first, env, x@), 0) =~= Seq::<bool>::empty());
            assert(0 * pow2(0) == 0);
        }
    }
    while i < width
        invariant
            b.inv(),
            netlist::ext(first, b@),
            netlist::within(first, b@, i as int),
            i <= width,
            n == x@.len(),
            netlist::below(x@, first.next),
            out@.len() == i,
            netlist::below(out@, b@.next),
            carry_ok(carry, b@.next),
            c == part + pow2(i as nat) * high,
            0 <= part < pow2(i as nat),
            forall|env: Env| #[trigger]
                num(b@, env, out@) + carried(b@, env, carry) * pow2(i as nat) == number(
                    low(netlist::bits(first, env, x@), i as nat),
                ) + part,
        decreases width - i,
    {
        let ghost c0 = b@;
        let ghost out0 = out@;
        let ghost carry0 = carry;
        let ghost part0 = part;
        let ghost high0 = high;
        let xi: Option<usize> = if i < n {
            Some(x[i])
        } else {
            None
        };
        let ci = high % 2 == 1;
        high = high / 2;
        let (s, cr) = add_const_bit(b, xi, ci, carry);
        out.push(s);
        carry = cr;
        proof {
            let w = pow2(i as nat) as int;
            lemma_pow2_unfold((i + 1) as nat);
            part = part0 + unit(ci) * w;
            assert(high0 == 2 * high + unit(ci));
            assert(w * high0 == unit(ci) * w + (2 * w) * high) by (nonlinear_arith)
                requires
                    high0 == 2 * high + unit(ci),
            ;
            assert(unit(ci) * w == if ci {
                w
            } else {
                0
            });
            assert forall|env: Env| #[trigger] num(b@, env, out@) + carried(b@, env, carry) * pow2(
                (i + 1) as nat,
            ) == number(low(netlist::bits(first, env, x@), (i + 1) as nat)) + part by {
                lemma_low_step(first, env, x@, i as nat, xi);
                lemma_bits_push(b@, env, out0, s);
                assert(netlist::bits(b@, env, out0) == netlist::bits(c0, env, out0));
                let (p, q) = (unit(netlist::value(b@, env, s as int)), carried(b@, env, cr));
                let (u, v) = (carried(first, env, xi), carried(c0, env, carry0));
                assert(carried(c0, env, xi) == u);
                assert(p + 2 * q == u + unit(ci) + v);
                assert(num(c0, env, out0) + v * w == number(
                    low(netlist::bits(first, env, x@), i as nat),
                ) + part0);
                assert(p * w + q * (2 * w) == u * w + unit(ci) * w + v * w) by (nonlinear_arith)
                    requires
                        p + 2 * q == u + unit(ci) + v,
                ;
            }
        }
        i = i + 1;
    }
    proof {
        let w = pow2(width as nat) as int;
        assert forall|env: Env| #[trigger] netlist::bits(b@, env, out@).len() == width && num(
            b@,
            env,
            out@,
        ) == (num(first, env, x@) + c) % w by {
            let s = netlist::bits(first, env, x@);
            let k = carried(b@, env, carry);
            assert(num(b@, env, out@) + k * w == number(low(s, width as nat)) + part);
            lemma_number_bounds(netlist::bits(b@, env, out@));
            let hi = if width <= s.len() {
                number(s.skip(width as int))
            } else {
                0
            };
            assert(number(s) == number(low(s, width as nat)) + w * hi) by {
                if width <= s.len() {
                    lemma_number_cut(s, width as nat);
                } else {
                    assert(w * 0 == 0);
                }
            }
            assert(number(s) + c == num(b@, env, out@) + w * (k + hi + high)) by (nonlinear_arith)
                requires
                    num(b@, env, out@) + k * w == number(low(s, width as nat)) + part,
                    number(s) == number(low(s, width as nat)) + w * hi,
                    c == part + w * high,
            ;
            lemma_residue(number(s) + c, num(b@, env, out@), k + hi + high, width as nat);
        }
    }
    out
}

/// `x - c` for a constant `c`: the difference modulo `2^width` and, for an `x`
/// below `2^width`, a wire that is 1 iff `x >= c`.
pub(crate) fn sub_const<T: CircuitTrait>(b: &mut T, x: &[usize], c: u128, width: usize) -> (r: (
    Vec<usize>,
    usize,
))
    requires
        old(b).inv(),
        netlist::below(x@, old(b)@.next),
        width < 128,
        c <= pow2(width as nat),
    ensures
        final(b).inv(),
        netlist::ext(old(b)@, final(b)@),
        netlist::below(r.0@, final(b)@.next),
        r.0@.len() == width,
        r.1 < final(b)@.next,
        forall|env: Env|
            #![trigger netlist::bits(final(b)@, env, r.0@)]
            #![trigger netlist::value(final(b)@, env, r.1 as int)]
            {
                &&& num(final(b)@, env, r.0@) == (num(old(b)@, env, x@) - c) % (pow2(
                    width as nat,
                ) as int)
                &&& num(old(b)@, env, x@) < pow2(width as nat) ==> netlist::value(
                    final(b)@,
                    env,
                    r.1 as int,
                ) == (num(old(b)@, env, x@) >= c)
            },
        netlist::within(old(b)@, final(b)@, width + 1),
{
    let ghost first = b@;
    let whole = two_to_u128(width);
    let comp = whole - c;
    let mut out = add_const(b, x, comp, width + 1);
    let ghost all = out@;
    let ok = out[width];
    out.truncate(width);
    proof {
        assert(out@ =~= all.take(width as int));
        assert(all =~= out@.push(ok));
        let w = pow2(width as nat) as int;
        lemma_pow2_unfold((width + 1) as nat);
        lemma_pow2_pos(width as nat);
        assert forall|env: Env|
            #![trigger netlist::bits(b@, env, out@)]
            #![trigger netlist::value(b@, env, ok as int)]
            {
                &&& num(b@, env, out@) == (num(first, env, x@) - c) % w
                &&& num(first, env, x@) < w ==> netlist::value(b@, env, ok as int) == (num(
                    first,
                    env,
                    x@,
                ) >= c)
            } by {
            lemma_bits_push(b@, env, out@, ok);
            assert(netlist::bits(b@, env, all).len() == width + 1);
            lemma_number_bounds(netlist::bits(b@, env, out@));
            lemma_number_bounds(netlist::bits(first, env, x@));
            let v = num(first, env, x@) + comp;
            let u = unit(netlist::value(b@, env, ok as int));
            let q = v / (2 * w);
            vstd::arithmetic::div_mod::lemma_fundamental_div_mod(v, 2 * w);
            assert(num(b@, env, all) == v % (2 * w));
            assert(num(b@, env, out@) + u * w == v % (2 * w));
            assert(num(first, env, x@) - c == num(b@, env, out@) + w * (2 * q + u - 1))
                by (nonlinear_arith)
                requires
                    v == (2 * w) * q + v % (2 * w),
                    num(b@, env, out@) + u * w == v % (2 * w),
                    v == num(first, env, x@) + (w - c),
            ;
            lemma_residue(
                num(first, env, x@) - c,
                num(b@, env, out@),
                2 * q + u - 1,
                width as nat,
            );
            if num(first, env, x@) < w {
                vstd::arithmetic::div_mod::lemma_small_mod(v as nat, pow2((width + 1) as nat));
                if u == 1 {
                    assert(1 * w == w);
                } else {
                    assert(0 * w == 0);
                }
            }
        }
    }
    (out, ok)
}

/// `2^n`.
fn two_to_u128(n: usize) -> (r: u128)
    requires
        n < 128,
    ensures
        r == pow2(n as nat),
        r <= 0x8000_0000_0000_0000_0000_0000_0000_0000,
{
    let mut r: u128 = 1;
    let mut i: usize = 0;
    proof {
        vstd::arithmetic::power2::lemma2_to64();
        lemma_pow2_127();
    }
    while i < n
        invariant
            i <= n <= 127,
            r == pow2(i as nat),
            pow2(127) == 0x8000_0000_0000_0000_0000_0000_0000_0000,
            r <= 0x8000_0000_0000_0000_0000_0000_0000_0000,
        decreases n - i,
    {
        proof {
            lemma_pow2_unfold((i + 1) as nat);
            if i + 1 < 127 {
                vstd::arithmetic::power2::lemma_pow2_strictly_increases((i + 1) as nat, 127);
            }
        }
        r = r * 2;
        i = i + 1;
    }
    r
}

proof fn lemma_pow2_127()
    ensures
        pow2(127) == 0x8000_0000_0000_0000_0000_0000_0000_0000,
{
    vstd::arithmetic::power2::lemma2_to64();
    vstd::arithmetic::power2::lemma_pow2_adds(64, 63);
    vstd::arithmetic::power2::lemma_pow2_unfold(64);
    assert(0x1_0000_0000_0000_0000 * 0x8000_0000_0000_0000
        == 0x8000_0000_0000_0000_0000_0000_0000_0000) by (nonlinear_arith);
}

/// The complement of the low bits.
fn complement<T: CircuitTrait>(b: &mut T, y: &[usize], width: usize) -> (ny: Vec<usize>)
    requires
        old(b).inv(),
        netlist::below(y@, old(b)@.next),
    ensures
        final(b).inv(),
        netlist::ext(old(b)@, final(b)@),
        netlist::below(ny@, final(b)@.next),
        ny@.len() == width,
        forall|env: Env| #[trigger]
            netlist::bits(final(b)@, env, ny@).len() == width && num(final(b)@, env, ny@) == pow2(
                width as nat,
            ) - 1 - number(low(netlist::bits(old(b)@, env, y@), width as nat)),
        netlist::within(old(b)@, final(b)@, 0),
{
    let ghost first = b@;
    let one = b.one();
    let mut ny: Vec<usize> = Vec::new();
    let n = y.len();
    proof {
        b.lemma_inv();
        netlist::lemma_ext_refl(first);
        vstd::arithmetic::power2::lemma2_to64();
        assert forall|env: Env| #[trigger] netlist::bits(b@, env, ny@).len() == 0 && num(
            b@,
            env,
            ny@,
        ) == pow2(0) - 1 - number(low(netlist::bits(first, env, y@), 0)) by {
            assert(low(netlist::bits(first, env, y@), 0) =~= Seq::<bool>::empty());
        }
        assert forall|env: Env| #[trigger] netlist::value(first, env, 1) == true by {
            netlist::lemma_constants(first, env);
        }
    }
    while ny.len() < width
        invariant
            b.inv(),
            netlist::ext(first, b@),
            netlist::within(first, b@, 0),
            one == 1,
            1 < first.next,
            n == y@.len(),
            netlist::below(y@, first.next),
            ny@.len() <= width,
            netlist::below(ny@, b@.next),
            forall|env: Env| #[trigger] netlist::value(first, env, 1) == true,
            forall|env: Env| #[trigger]
                netlist::bits(b@, env, ny@).len() == ny@.len() && num(b@, env, ny@) == pow2(
                    ny@.len(),
                ) - 1 - number(low(netlist::bits(first, env, y@), ny@.len())),
        decreases width - ny@.len(),
    {
        let i = ny.len();
        let ghost c0 = b@;
        let ghost ny0 = ny@;
        let ghost yi: Option<usize> = if i < y@.len() {
            Some(y@[i as int])
        } else {
            None
        };
        let w = if i < n {
            b.xor_wire(y[i], one)
        } else {
            one
        };
        ny.push(w);
        proof {
            netlist::lemma_ext_refl(c0);
            if i < n {
                netlist::lemma_emit_cost(c0, y@[i as int], one);
            }
            assert forall|env: Env| #[trigger] netlist::bits(b@, env, ny@).len() == ny@.len()
                && num(b@, env, ny@) == pow2(ny@.len()) - 1 - number(
                low(netlist::bits(first, env, y@), ny@.len()),
            ) by {
                lemma_low_step(first, env, y@, i as nat, yi);
                lemma_bits_push(b@, env, ny0, w);
                lemma_pow2_unfold((i + 1) as nat);
                assert(netlist::bits(b@, env, ny0) == netlist::bits(c0, env, ny0));
                let p = pow2(i as nat) as int;
                assert(netlist::value(first, env, 1) == true);
                assert(netlist::value(c0, env, 1) == netlist::value(first, env, 1));
                assert(netlist::value(b@, env, 1) == netlist::value(c0, env, 1));
                if i < n {
                    assert(netlist::value(c0, env, y@[i as int] as int) == netlist::value(
                        first,
                        env,
                        y@[i as int] as int,
                    ));
                }
                let u = unit(netlist::value(b@, env, w as int));
                let v = carried(first, env, yi);
                assert(u == 1 - v);
                assert(u * p == p - v * p) by (nonlinear_arith)
                    requires
                        u == 1 - v,
                ;
                assert(netlist::bits(c0, env, ny0).len() == ny0.len());
            }
        }
    }
    ny
}

/// `x - y` for `y <= x < 2^width`: `x + !y + 1`.
#[verifier::rlimit(40)]
pub(crate) fn sub_words<T: CircuitTrait>(b: &mut T, x: &[usize], y: &[usize], width: usize) -> (out: Vec<
    usize,
>)
    requires
        old(b).inv(),
        netlist::below(x@, old(b)@.next),
        netlist::below(y@, old(b)@.next),
    ensures
        final(b).inv(),
        netlist::ext(old(b)@, final(b)@),
        netlist::below(out@, final(b)@.next),
        out@.len() == width,
        forall|env: Env| #[trigger]
            netlist::bits(final(b)@, env, out@).len() == width && (num(old(b)@, env, y@) <= num(
                old(b)@,
                env,
                x@,
            ) < pow2(width as nat) ==> num(final(b)@, env, out@) == num(old(b)@, env, x@) - num(
                old(b)@,
                env,
                y@,
            )),
        netlist::within(old(b)@, final(b)@, width as int),
{
    let ghost first = b@;
    let ny = complement(b, y, width);
    let ghost c1 = b@;
    let mut out: Vec<usize> = Vec::new();
    let mut carry = b.one();
    let n = x.len();
    proof {
        b.lemma_inv();
        netlist::lemma_ext_refl(c1);
        vstd::arithmetic::power2::lemma2_to64();
        assert forall|env: Env| #[trigger] netlist::value(c1, env, 0) == false by {
            netlist::lemma_constants(c1, env);
        }
        assert forall|env: Env| #[trigger] netlist::bits(b@, env, out@).len() == 0 && num(
            b@,
            env,
            out@,
        ) + unit(netlist::value(b@, env, carry as int)) * pow2(0) == number(
            low(netlist::bits(first, env, x@), 0),
        ) + number(netlist::bits(c1, env, ny@).take(0)) + 1 by {
            netlist::lemma_constants(c1, env);
            assert(low(netlist::bits(first, env, x@), 0) =~= Seq::<bool>::empty());
            assert(netlist::bits(c1, env, ny@).take(0) =~= Seq::<bool>::empty());
        }
    }
    while out.len() < width
        invariant
            b.inv(),
            netlist::ext(first, c1),
            netlist::ext(c1, b@),
            netlist::within(first, b@, out@.len() as int),
            2 <= c1.next,
            n == x@.len(),
            netlist::below(x@, first.next),
            netlist::below(ny@, c1.next),
            ny@.len() == width,
            out@.len() <= width,
            netlist::below(out@, b@.next),
            carry < b@.next,
            forall|env: Env| #[trigger] netlist::value(c1, env, 0) == false,
            forall|env: Env| #[trigger]
                netlist::bits(b@, env, out@).len() == out@.len() && num(b@, env, out@) + unit(
                    netlist::value(b@, env, carry as int),
                ) * pow2(out@.len()) == number(low(netlist::bits(first, env, x@), out@.len()))
                    + number(netlist::bits(c1, env, ny@).take(out@.len() as int)) + 1,
        decreases width - out@.len(),
    {
        let i = out.len();
        let ghost c0 = b@;
        let ghost out0 = out@;
        let ghost carry0 = carry;
        let ghost xo: Option<usize> = if i < x@.len() {
            Some(x@[i as int])
        } else {
            None
        };
        let xi = if i < n {
            x[i]
        } else {
            b.zero()
        };
        let (s, c) = full_adder(b, xi, ny[i], carry);
        out.push(s);
        carry = c;
        proof {
            assert forall|env: Env| #[trigger] netlist::bits(b@, env, out@).len() == out@.len()
                && num(b@, env, out@) + unit(netlist::value(b@, env, carry as int)) * pow2(
                out@.len(),
            ) == number(low(netlist::bits(first, env, x@), out@.len())) + number(
                netlist::bits(c1, env, ny@).take(out@.len() as int),
            ) + 1 by {
                lemma_low_step(first, env, x@, i as nat, xo);
                lemma_bits_take(c1, env, ny@, i as int);
                lemma_bits_push(b@, env, out0, s);
                lemma_pow2_unfold((i + 1) as nat);
                assert(netlist::bits(b@, env, out0) == netlist::bits(c0, env, out0));
                assert(netlist::bits(c0, env, out0).len() == out0.len());
                assert(netlist::value(c1, env, 0) == false);
                let p = pow2(i as nat) as int;
                let (u, v) = (
                    unit(netlist::value(b@, env, s as int)),
                    unit(netlist::value(b@, env, c as int)),
                );
                let (e, f, g) = (
                    carried(first, env, xo),
                    unit(netlist::value(c1, env, ny@[i as int] as int)),
                    unit(netlist::value(c0, env, carry0 as int)),
                );
                assert(unit(netlist::value(c0, env, xi as int)) == e) by {
                    if i < n {
                        assert(netlist::value(c1, env, xi as int) == netlist::value(
                            first,
                            env,
                            xi as int,
                        ));
                    }
                    assert(netlist::value(c0, env, xi as int) == netlist::value(
                        c1,
                        env,
                        xi as int,
                    ));
                }
                assert(netlist::value(c0, env, ny@[i as int] as int) == netlist::value(
                    c1,
                    env,
                    ny@[i as int] as int,
                ));
                assert(u + 2 * v == e + f + g);
                assert(u * p + v * (2 * p) == e * p + f * p + g * p) by (nonlinear_arith)
                    requires
                        u + 2 * v == e + f + g,
                ;
            }
        }
    }
    proof {
        let w = pow2(width as nat) as int;
        assert forall|env: Env| #[trigger] netlist::bits(b@, env, out@).len() == width && (num(
            first,
            env,
            y@,
        ) <= num(first, env, x@) < w ==> num(b@, env, out@) == num(first, env, x@) - num(
            first,
            env,
            y@,
        )) by {
            let (sx, sy) = (netlist::bits(first, env, x@), netlist::bits(first, env, y@));
            assert(netlist::bits(c1, env, ny@).take(width as int) =~= netlist::bits(c1, env, ny@));
            lemma_number_bounds(netlist::bits(b@, env, out@));
            assert(netlist::bits(c1, env, ny@).len() == width);
            if num(first, env, y@) <= num(first, env, x@) && num(first, env, x@) < w {
                if width <= sx.len() {
                    lemma_number_low(sx, width as nat);
                }
                if width <= sy.len() {
                    lemma_number_low(sy, width as nat);
                }
                lemma_number_bounds(sx);
                lemma_number_bounds(sy);
                let k = unit(netlist::value(b@, env, carry as int));
                assert(num(b@, env, out@) + k * w == number(sx) - number(sy) + w);
                assert(k * w == if netlist::value(b@, env, carry as int) {
                    w
                } else {
                    0
                });
            }
        }
    }
    out
}

/// `sel ? y : x`, bit by bit, as far as both go.
pub(crate) fn mux_words<T: CircuitTrait>(b: &mut T, sel: usize, x: &[usize], y: &[usize]) -> (r: Vec<
    usize,
>)
    requires
        old(b).inv(),
        sel < old(b)@.next,
        netlist::below(x@, old(b)@.next),
        netlist::below(y@, old(b)@.next),
    ensures
        final(b).inv(),
        netlist::ext(old(b)@, final(b)@),
        netlist::below(r@, final(b)@.next),
        r@.len() == if x@.len() < y@.len() {
            x@.len()
        } else {
            y@.len()
        },
        forall|env: Env| #[trigger]
            netlist::bits(final(b)@, env, r@) == (if netlist::value(old(b)@, env, sel as int) {
                netlist::bits(old(b)@, env, y@).take(r@.len() as int)
            } else {
                netlist::bits(old(b)@, env, x@).take(r@.len() as int)
            }),
        netlist::within(old(b)@, final(b)@, r@.len() as int),
{
    let ghost first = b@;
    let n = if x.len() < y.len() {
        x.len()
    } else {
        y.len()
    };
    let mut r: Vec<usize> = Vec::new();
    proof {
        netlist::lemma_ext_refl(first);
    }
    while r.len() < n
        invariant
            b.inv(),
            netlist::ext(first, b@),
            netlist::within(first, b@, r@.len() as int),
            sel < first.next,
            netlist::below(x@, first.next),
            netlist::below(y@, first.next),
            n <= x@.len(),
            n <= y@.len(),
            r@.len() <= n,
            netlist::below(r@, b@.next),
            forall|env: Env, i: int|
                0 <= i < r@.len() ==> #[trigger] netlist::value(b@, env, r@[i] as int)
                    == netlist::value(
                    first,
                    env,
                    if netlist::value(first, env, sel as int) {
                        y@[i] as int
                    } else {
                        x@[i] as int
                    },
                ),
        decreases n - r@.len(),
    {
        let k = r.len();
        let ghost c0 = b@;
        let ghost r0 = r@;
        let d = b.xor_wire(x[k], y[k]);
        let ghost c1 = b@;
        let t = b.and_wire(sel, d);
        let ghost c2 = b@;
        let w = b.xor_wire(x[k], t);
        r.push(w);
        proof {
            netlist::lemma_emit_cost(c0, x@[k as int], y@[k as int]);
            netlist::lemma_emit_cost(c1, sel, d);
            netlist::lemma_emit_cost(c2, x@[k as int], t);
            assert forall|env: Env, i: int| 0 <= i < r@.len() implies #[trigger] netlist::value(
                b@,
                env,
                r@[i] as int,
            ) == netlist::value(
                first,
                env,
                if netlist::value(first, env, sel as int) {
                    y@[i] as int
                } else {
                    x@[i] as int
                },
            ) by {
                if i < k {
                    assert(r@[i] == r0[i]);
                    assert(netlist::value(b@, env, r0[i] as int) == netlist::value(
                        c0,
                        env,
                        r0[i] as int,
                    ));
                } else {
                    let (vx, vy, vs) = (
                        netlist::value(first, env, x@[k as int] as int),
                        netlist::value(first, env, y@[k as int] as int),
                        netlist::value(first, env, sel as int),
                    );
                    assert(netlist::value(c0, env, x@[k as int] as int) == vx);
                    assert(netlist::value(c0, env, y@[k as int] as int) == vy);
                    assert(netlist::value(c1, env, d as int) == (vx != vy));
                    assert(netlist::value(c1, env, sel as int) == vs);
                    assert(netlist::value(c2, env, t as int) == (vs && (vx != vy)));
                    assert(netlist::value(c2, env, x@[k as int] as int) == vx);
                }
            }
        }
    }
    proof {
        assert forall|env: Env| #[trigger] netlist::bits(b@, env, r@) == (if netlist::value(
            first,
            env,
            sel as int,
        ) {
            netlist::bits(first, env, y@).take(r@.len() as int)
        } else {
            netlist::bits(first, env, x@).take(r@.len() as int)
        }) by {
            let want = if netlist::value(first, env, sel as int) {
                netlist::bits(first, env, y@).take(r@.len() as int)
            } else {
                netlist::bits(first, env, x@).take(r@.len() as int)
            };
            assert forall|i: int| 0 <= i < r@.len() implies netlist::bits(b@, env, r@)[i]
                == want[i] by {
                assert(netlist::value(b@, env, r@[i] as int) == netlist::value(
                    first,
                    env,
                    if netlist::value(first, env, sel as int) {
                        y@[i] as int
                    } else {
                        x@[i] as int
                    },
                ));
            }
            assert(netlist::bits(b@, env, r@) =~= want);
        }
    }
    r
}

} // verus!

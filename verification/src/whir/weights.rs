//! The constraints' weights and the closing identity in a verifier script.
use super::builder::{lemma_one, sp, Builder};
use super::layout::Layout;
use super::model;
use super::proof_script::{append_entries, challenges, measured_draws, points_on, ready};
use super::reading;
use super::reading::in_range;
use super::reference::{Draws, VerifyConfig, VerifyData};
use super::script;
use super::script::Op;
use super::sponge::Duplex;
use super::symbols;
use super::symbols::{
    alt_spread, at, ats, both, none, prefix, quad_at, spread, stand, Cond, Sym, Val,
};
use super::verify;
use super::verify::ClaimShape;
use crate::poseidon2::ext4;
use crate::poseidon2::ext4::Quad;
use vstd::arithmetic::power2::pow2;
use vstd::prelude::*;

verus! {

broadcast use {
    symbols::lemma_spread_len,
    symbols::lemma_alt_spread_len,
    script::lemma_census_push,
};

/// One weight of a constraint.
#[derive(Clone, Copy)]
pub enum Weight<'a> {
    /// The equality weight of the kept univariate point `u` expanded to `m`
    /// coordinates, with hypercube coordinates after them.
    Eq { u: u128, m: usize, suffix: &'a Vec<[u32; 4]> },
    /// The select weight of a kept base element.
    Select { z: u128 },
}

/// A weight at the local randomness.
pub open spec fn value(w: Weight, k: Seq<int>, local: Seq<Quad>) -> Quad {
    match w {
        Weight::Eq { u, m, suffix } => model::eq_at(
            model::expanded(script::quad_at(k, u as int), m as nat) + ext4::quads(suffix@),
            local,
        ),
        Weight::Select { z } => model::selected(ext4::one(), k[z as int], local),
    }
}

/// A constraint's weights at the local randomness.
pub open spec fn values(ws: Seq<Weight>, k: Seq<int>, local: Seq<Quad>) -> Seq<Quad> {
    Seq::new(ws.len(), |i: int| value(ws[i], k, local))
}

/// A weight on all data.
pub open spec fn value_sym(w: Weight, k: Seq<Val>, local: Seq<Sym>) -> Sym {
    match w {
        Weight::Eq { u, m, suffix } => symbols::eq_at(
            symbols::expanded(quad_at(k, u as int), m as nat) + symbols::fixed_list(
                ext4::quads(suffix@),
            ),
            local,
        ),
        Weight::Select { z } => symbols::selected(
            symbols::fixed(ext4::one()),
            k[z as int],
            local,
        ),
    }
}

/// A constraint's weights on all data.
pub open spec fn value_syms(ws: Seq<Weight>, k: Seq<Val>, local: Seq<Sym>) -> Seq<Sym> {
    Seq::new(ws.len(), |i: int| value_sym(ws[i], k, local))
}

/// The weights' values.
proof fn lemma_values(ws: Seq<Weight>, k: Seq<Val>, local: Seq<Sym>, u: Seq<int>)
    requires
        all_weighable(ws, k.len(), local.len()),
    ensures
        ats(value_syms(ws, k, local), u) == values(ws, at(k, u), ats(local, u)),
{
    let got = ats(value_syms(ws, k, local), u);
    let want = values(ws, at(k, u), ats(local, u));
    assert forall|i: int| 0 <= i < ws.len() implies got[i] == want[i] by {
        assert(weighable(ws[i], k.len(), local.len()));
        match ws[i] {
            Weight::Eq { u: e, m, suffix } => {
                let x = quad_at(k, e as int);
                let cs = ext4::quads(suffix@);
                let z = symbols::expanded(x, m as nat) + symbols::fixed_list(cs);
                assert(x.at(u) == script::quad_at(at(k, u), e as int));
                assert(ats(z, u) =~= model::expanded(x.at(u), m as nat) + cs);
            },
            Weight::Select { z } => {
                symbols::lemma_selected(
                    symbols::fixed(ext4::one()),
                    k[z as int],
                    local,
                    u,
                );
                assert(symbols::fixed(ext4::one()).at(u) == ext4::one());
            },
        }
    }
    assert(got =~= want);
}

/// A weight over `n` variables of `len` kept slots.
pub open spec fn weighable(w: Weight, len: nat, n: nat) -> bool {
    match w {
        Weight::Eq { u, m, suffix } => u + 4 <= len && m + suffix@.len() == n,
        Weight::Select { z } => z < len,
    }
}

pub open spec fn all_weighable(ws: Seq<Weight>, len: nat, n: nat) -> bool {
    forall|i: int| 0 <= i < ws.len() ==> weighable(#[trigger] ws[i], len, n)
}

/// A total with a constraint's weights added.
pub open spec fn added(total: Sym, chi: Sym, shifted: bool, vals: Seq<Sym>) -> Sym {
    let n = symbols::nested(chi, vals);
    symbols::plus(
        total,
        if shifted {
            symbols::times(n, chi)
        } else {
            n
        },
    )
}

/// An equality or select weight is canonical.
proof fn lemma_eq_canonical(z: Seq<Quad>, r: Seq<Quad>)
    ensures
        ext4::canonical(model::eq_at(z, r)),
{
    if z.len() > 0 {
        ext4::law_canonical(
            model::eq_at(z.drop_last(), r.drop_last()),
            model::eq_factor(z.last(), r.last()),
        );
    }
}

impl Builder {
    /// Pushes the local randomness of a constraint.
    fn push_local(
        &mut self,
        all_fold: &Vec<u128>,
        n: usize,
        Ghost(k): Ghost<Seq<Val>>,
        Ghost(t): Ghost<Seq<Val>>,
        Ghost(all): Ghost<Seq<Sym>>,
    )
        requires
            old(self).holds(k, t, none()),
            stand(k, all_fold@, all),
            n <= all_fold@.len(),
        ensures
            final(self).holds(k, t + spread(symbols::suffix(all, n as nat)), none()),
            final(self).same(old(self)),
    {
        let ghost local = symbols::suffix(all, n as nat);
        let first = all_fold.len() - n;
        let mut j = first;
        proof {
            assert(spread(local.take(0)) =~= none());
            assert(t + none() =~= t);
        }
        while j < all_fold.len()
            invariant
                first <= j <= all_fold@.len(),
                first + n == all_fold@.len(),
                stand(k, all_fold@, all),
                local == symbols::suffix(all, n as nat),
                self.holds(k, t + spread(local.take(j - first)), none()),
                self.same(old(self)),
            decreases all_fold@.len() - j,
        {
            let ghost qs = local.take(j - first);
            let ghost q = all[j as int];
            assert(all_fold@[j as int] + 4 <= k.len());
            self.push_kept_ef(all_fold[j], Ghost(k), Ghost(t + spread(qs)), Ghost(none()));
            proof {
                symbols::lemma_spread_push(qs, q);
                assert(local[j - first] == q);
                assert(qs.push(q) =~= local.take(j + 1 - first));
                assert((t + spread(qs)) + sp(q) =~= t + (spread(qs) + sp(q)));
            }
            j = j + 1;
        }
        assert(local.take(j - first) =~= local);
    }

    /// Pushes a constraint's weights.
    fn push_weights(
        &mut self,
        ws: &Vec<Weight>,
        n: usize,
        Ghost(k): Ghost<Seq<Val>>,
        Ghost(t): Ghost<Seq<Val>>,
        Ghost(local): Ghost<Seq<Sym>>,
    )
        requires
            old(self).holds(k, t + spread(local), none()),
            local.len() == n,
            all_weighable(ws@, k.len(), n as nat),
        ensures
            final(self).holds(k, (t + spread(local)) + spread(value_syms(ws@, k, local)), none()),
            final(self).same(old(self)),
    {
        let ghost vals = value_syms(ws@, k, local);
        let ghost b = t + spread(local);
        let mut i: usize = 0;
        proof {
            assert(spread(vals.take(0)) =~= none());
            assert(b + none() =~= b);
        }
        while i < ws.len()
            invariant
                i <= ws@.len(),
                local.len() == n,
                all_weighable(ws@, k.len(), n as nat),
                vals == value_syms(ws@, k, local),
                b == t + spread(local),
                self.holds(k, b + spread(vals.take(i as int)), none()),
                self.same(old(self)),
            decreases ws@.len() - i,
        {
            let ghost before = vals.take(i as int);
            let ghost v = vals[i as int];
            let w = ws[i];
            assert(weighable(ws@[i as int], k.len(), n as nat));
            match w {
                Weight::Eq { u, m, suffix } => {
                    self.eq_weight(
                        u,
                        m,
                        suffix.as_slice(),
                        i,
                        Ghost(k),
                        Ghost(t),
                        Ghost(local),
                        Ghost(before),
                    );
                },
                Weight::Select { z } => {
                    self.select_weight(
                        z,
                        n,
                        i,
                        Ghost(k),
                        Ghost(t),
                        Ghost(local),
                        Ghost(before),
                    );
                },
            }
            proof {
                symbols::lemma_spread_push(before, v);
                assert(before.push(v) =~= vals.take(i + 1));
                assert((b + spread(before)) + sp(v) =~= b + (spread(before) + sp(v)));
            }
            i = i + 1;
        }
        assert(vals.take(i as int) =~= vals);
    }

    /// Combines the values on top by Horner in the kept challenge.
    fn nest(
        &mut self,
        chi: u128,
        count: usize,
        Ghost(k): Ghost<Seq<Val>>,
        Ghost(b): Ghost<Seq<Val>>,
        Ghost(vals): Ghost<Seq<Sym>>,
    )
        requires
            old(self).holds(k, b + spread(vals), none()),
            count == vals.len(),
            count > 0,
            chi + 4 <= k.len(),
        ensures
            final(self).holds(
                k,
                b + sp(symbols::nested(quad_at(k, chi as int), vals)),
                none(),
            ),
            final(self).same(old(self)),
    {
        let ghost x = quad_at(k, chi as int);
        let mut i = count - 1;
        proof {
            let (first, v) = (vals.take(i as int), vals[i as int]);
            symbols::lemma_spread_push(first, v);
            assert(first.push(v) =~= vals);
            assert(b + (spread(first) + sp(v)) =~= (b + spread(first)) + sp(v));
            assert(vals.skip(i as int) =~= seq![v]);
        }
        while i > 0
            invariant
                i < count,
                count == vals.len(),
                chi + 4 <= k.len(),
                x == quad_at(k, chi as int),
                self.holds(
                    k,
                    (b + spread(vals.take(i as int))) + sp(symbols::nested(x, vals.skip(i as int))),
                    none(),
                ),
                self.same(old(self)),
            decreases i,
        {
            let ghost h = symbols::nested(x, vals.skip(i as int));
            let ghost t = b + spread(vals.take(i as int));
            self.push_kept_ef(chi, Ghost(k), Ghost(t + sp(h)), Ghost(none()));
            self.ef_mul(Ghost(k), Ghost(t), Ghost(h), Ghost(x), Ghost(none()));
            let ghost y = symbols::times(h, x);
            i = i - 1;
            let ghost (first, v) = (vals.take(i as int), vals[i as int]);
            proof {
                symbols::lemma_spread_push(first, v);
                assert(first.push(v) =~= vals.take(i + 1));
                assert(t =~= (b + spread(first)) + sp(v));
            }
            self.ef_add(
                Ghost(k),
                Ghost(b + spread(first)),
                Ghost(v),
                Ghost(y),
                Ghost(none()),
            );
            proof {
                assert(vals.skip(i as int).drop_first() =~= vals.skip(i + 1));
                assert(vals.skip(i as int)[0] == v);
                symbols::lemma_plus_commutes(v, y);
            }
        }
        proof {
            assert(spread(vals.take(0)) =~= none());
            assert(b + none() =~= b);
            assert(vals.skip(0) =~= vals);
        }
    }

    /// Adds a constraint's weight at its local randomness to the total on top.
    pub(crate) fn constraint(
        &mut self,
        chi: u128,
        n: usize,
        shifted: bool,
        ws: &Vec<Weight>,
        all_fold: &Vec<u128>,
        Ghost(k): Ghost<Seq<Val>>,
        Ghost(total): Ghost<Sym>,
        Ghost(all): Ghost<Seq<Sym>>,
    )
        requires
            old(self).holds(k, none() + sp(total), none()),
            stand(k, all_fold@, all),
            n <= all_fold@.len(),
            chi + 4 <= k.len(),
            ws@.len() > 0,
            all_weighable(ws@, k.len(), n as nat),
        ensures
            final(self).holds(
                k,
                none() + sp(
                    added(
                        total,
                        quad_at(k, chi as int),
                        shifted,
                        value_syms(ws@, k, symbols::suffix(all, n as nat)),
                    ),
                ),
                none(),
            ),
            final(self).same(old(self)),
    {
        let ghost local = symbols::suffix(all, n as nat);
        let ghost vals = value_syms(ws@, k, local);
        let ghost x = quad_at(k, chi as int);
        let ghost t = none() + sp(total);
        let ghost b = t + spread(local);
        self.push_local(all_fold, n, Ghost(k), Ghost(t), Ghost(all));
        self.push_weights(ws, n, Ghost(k), Ghost(t), Ghost(local));
        self.nest(chi, ws.len(), Ghost(k), Ghost(b), Ghost(vals));
        let ghost h = symbols::nested(x, vals);
        if shifted {
            self.push_kept_ef(chi, Ghost(k), Ghost(b + sp(h)), Ghost(none()));
            self.ef_mul(Ghost(k), Ghost(b), Ghost(h), Ghost(x), Ghost(none()));
        }
        let ghost v = if shifted {
            symbols::times(h, x)
        } else {
            h
        };
        self.unlocal(n, Ghost(k), Ghost(t), Ghost(local), Ghost(v));
        self.ef_add(Ghost(k), Ghost(none()), Ghost(total), Ghost(v), Ghost(none()));
    }

    /// Drops the local randomness from under the value on top.
    fn unlocal(
        &mut self,
        n: usize,
        Ghost(k): Ghost<Seq<Val>>,
        Ghost(t): Ghost<Seq<Val>>,
        Ghost(local): Ghost<Seq<Sym>>,
        Ghost(v): Ghost<Sym>,
    )
        requires
            old(self).holds(k, (t + spread(local)) + sp(v), none()),
            local.len() == n,
        ensures
            final(self).holds(k, t + sp(v), none()),
            final(self).same(old(self)),
    {
        let ghost a = alt_spread(seq![v]);
        self.ef_to_alt(Ghost(k), Ghost(t + spread(local)), Ghost(v), Ghost(none()));
        proof {
            assert(none() + a =~= a);
            assert(k + (t + spread(local)) =~= (k + t) + spread(local));
            symbols::effect_drops(spread(local), n);
        }
        self.tape.plain(Op::ExtDrop(n), Ghost(k + t), Ghost(spread(local)), Ghost(none()));
        proof {
            assert((k + t) + none() =~= k + t);
            symbols::effect_from_alt(v);
            assert((k + t) + sp(v) =~= k + (t + sp(v)));
            assert(none() + none() =~= none());
            lemma_one(v);
        }
        self.tape.emit(
            Op::ExtFromAlt,
            Ghost(k + t),
            Ghost(none()),
            Ghost(none()),
            Ghost(a),
            Ghost(sp(v)),
            Ghost(none()),
        );
        assert(self.tape.ops.len() == self.tape.ops@.len());
        self.temps = self.temps - 4 * (n as u128) + 4;
    }
}

/// The weights of the initial constraint.
fn initial_list<'a>(l: &Layout, cfg: &'a VerifyConfig, empty: &'a Vec<[u32; 4]>, Ghost(n): Ghost<
    nat,
>) -> (ws: Vec<Weight<'a>>)
    requires
        empty@.len() == 0,
        cfg.claims@.len() == l.k_claim@.len(),
        in_range(l.k_claim@, n),
        in_range(l.k_ood@, n),
        forall|c: int, j: int|
            0 <= c < cfg.claims@.len() && 0 <= j < cfg.claims@[c].selectors@.len()
                ==> cfg.claims@[c].row_vars + (#[trigger] cfg.claims@[c].selectors@[j])@.len()
                == cfg.num_variables,
    ensures
        all_weighable(ws@, n, cfg.num_variables as nat),
        forall|k: Seq<int>, local: Seq<Quad>| #[trigger]
            values(ws@, k, local) == verify::all_claim_weights(
                cfg.claims@,
                reading::quads(k, l.k_claim@),
                local,
                cfg.claims@.len(),
            ) + verify::ood_weights(
                reading::quads(k, l.k_ood@),
                cfg.num_variables as nat,
                local,
            ),
{
    let mut ws: Vec<Weight<'a>> = Vec::new();
    let mut c: usize = 0;
    assert forall|k: Seq<int>, local: Seq<Quad>| #[trigger]
        values(ws@, k, local) == verify::all_claim_weights(
            cfg.claims@,
            reading::quads(k, l.k_claim@),
            local,
            0,
        ) by {
        assert(values(ws@, k, local) =~= Seq::empty());
    }
    while c < cfg.claims.len()
        invariant
            c <= cfg.claims@.len(),
            cfg.claims@.len() == l.k_claim@.len(),
            in_range(l.k_claim@, n),
            forall|c: int, j: int|
                0 <= c < cfg.claims@.len() && 0 <= j < cfg.claims@[c].selectors@.len()
                    ==> cfg.claims@[c].row_vars + (#[trigger] cfg.claims@[c].selectors@[j])@.len()
                    == cfg.num_variables,
            all_weighable(ws@, n, cfg.num_variables as nat),
            forall|k: Seq<int>, local: Seq<Quad>| #[trigger]
                values(ws@, k, local) == verify::all_claim_weights(
                    cfg.claims@,
                    reading::quads(k, l.k_claim@),
                    local,
                    c as nat,
                ),
        decreases cfg.claims@.len() - c,
    {
        let shape = &cfg.claims[c];
        let u = l.k_claim[c];
        let ghost first = ws@;
        let mut j: usize = 0;
        assert forall|k: Seq<int>, local: Seq<Quad>| #[trigger]
            values(ws@, k, local) == values(first, k, local) + verify::claim_weights(
                *shape,
                script::quad_at(k, u as int),
                local,
            ).take(0) by {
            let more = verify::claim_weights(*shape, script::quad_at(k, u as int), local);
            assert(values(first, k, local) + more.take(0) =~= values(first, k, local));
        }
        while j < shape.selectors.len()
            invariant
                c < cfg.claims@.len(),
                *shape == cfg.claims@[c as int],
                j <= shape.selectors@.len(),
                u + 4 <= n,
                forall|c: int, j: int|
                    0 <= c < cfg.claims@.len() && 0 <= j < cfg.claims@[c].selectors@.len()
                        ==> cfg.claims@[c].row_vars + (
                    #[trigger] cfg.claims@[c].selectors@[j])@.len() == cfg.num_variables,
                all_weighable(ws@, n, cfg.num_variables as nat),
                forall|k: Seq<int>, local: Seq<Quad>| #[trigger]
                    values(ws@, k, local) == values(first, k, local) + verify::claim_weights(
                        *shape,
                        script::quad_at(k, u as int),
                        local,
                    ).take(j as int),
            decreases shape.selectors@.len() - j,
        {
            let w = Weight::Eq { u, m: shape.row_vars, suffix: &shape.selectors[j] };
            let ghost old_ws = ws@;
            proof {
                assert(cfg.claims@[c as int].row_vars
                    + cfg.claims@[c as int].selectors@[j as int]@.len() == cfg.num_variables);
                assert(weighable(w, n, cfg.num_variables as nat));
            }
            ws.push(w);
            proof {
                assert forall|k: Seq<int>, local: Seq<Quad>| #[trigger]
                    values(ws@, k, local) == values(first, k, local) + verify::claim_weights(
                        *shape,
                        script::quad_at(k, u as int),
                        local,
                    ).take(j + 1) by {
                    let more = verify::claim_weights(*shape, script::quad_at(k, u as int), local);
                    let before = values(first, k, local);
                    assert(value(w, k, local) == more[j as int]);
                    assert(values(old_ws, k, local) == before + more.take(j as int));
                    assert(values(ws@, k, local) =~= values(old_ws, k, local).push(more[j as int]));
                    assert((before + more.take(j as int)).push(more[j as int]) =~= before
                        + more.take(j + 1));
                }
                assert forall|i: int| 0 <= i < ws@.len() implies weighable(
                    #[trigger] ws@[i],
                    n,
                    cfg.num_variables as nat,
                ) by {
                    if i < old_ws.len() {
                        assert(ws@[i] == old_ws[i]);
                    }
                }
            }
            j = j + 1;
        }
        proof {
            assert forall|k: Seq<int>, local: Seq<Quad>| #[trigger]
                values(ws@, k, local) == verify::all_claim_weights(
                    cfg.claims@,
                    reading::quads(k, l.k_claim@),
                    local,
                    (c + 1) as nat,
                ) by {
                let more = verify::claim_weights(*shape, script::quad_at(k, u as int), local);
                assert(more.take(j as int) =~= more);
                assert(values(first, k, local) == verify::all_claim_weights(
                    cfg.claims@,
                    reading::quads(k, l.k_claim@),
                    local,
                    c as nat,
                ));
            }
        }
        c = c + 1;
    }
    push_ood(&mut ws, &l.k_ood, cfg.num_variables, empty, Ghost(n));
    ws
}

/// The weights of out-of-domain points, after others.
fn push_ood<'a>(
    ws: &mut Vec<Weight<'a>>,
    entries: &Vec<u128>,
    m: usize,
    empty: &'a Vec<[u32; 4]>,
    Ghost(n): Ghost<nat>,
)
    requires
        empty@.len() == 0,
        in_range(entries@, n),
        all_weighable(old(ws)@, n, m as nat),
    ensures
        all_weighable(final(ws)@, n, m as nat),
        forall|k: Seq<int>, local: Seq<Quad>| #[trigger]
            values(final(ws)@, k, local) == values(old(ws)@, k, local) + verify::ood_weights(
                reading::quads(k, entries@),
                m as nat,
                local,
            ),
        final(ws)@.len() == old(ws)@.len() + entries@.len(),
{
    let ghost first = ws@;
    let mut j: usize = 0;
    assert forall|k: Seq<int>, local: Seq<Quad>| #[trigger]
        values(ws@, k, local) == values(first, k, local) + verify::ood_weights(
            reading::quads(k, entries@),
            m as nat,
            local,
        ).take(0) by {
        let more = verify::ood_weights(reading::quads(k, entries@), m as nat, local);
        assert(values(first, k, local) + more.take(0) =~= values(first, k, local));
    }
    while j < entries.len()
        invariant
            j <= entries@.len(),
            empty@.len() == 0,
            in_range(entries@, n),
            all_weighable(ws@, n, m as nat),
            forall|k: Seq<int>, local: Seq<Quad>| #[trigger]
                values(ws@, k, local) == values(first, k, local) + verify::ood_weights(
                    reading::quads(k, entries@),
                    m as nat,
                    local,
                ).take(j as int),
            ws@.len() == old(ws)@.len() + j,
        decreases entries@.len() - j,
    {
        let u = entries[j];
        let w = Weight::Eq { u, m, suffix: empty };
        let ghost old_ws = ws@;
        assert(entries@[j as int] + 4 <= n);
        ws.push(w);
        proof {
            assert forall|k: Seq<int>, local: Seq<Quad>| #[trigger]
                values(ws@, k, local) == values(first, k, local) + verify::ood_weights(
                    reading::quads(k, entries@),
                    m as nat,
                    local,
                ).take(j + 1) by {
                let more = verify::ood_weights(reading::quads(k, entries@), m as nat, local);
                let before = values(first, k, local);
                let e = model::expanded(script::quad_at(k, u as int), m as nat);
                assert(e + ext4::quads(empty@) =~= e);
                assert(value(w, k, local) == more[j as int]);
                assert(values(old_ws, k, local) == before + more.take(j as int));
                assert(values(ws@, k, local) =~= values(old_ws, k, local).push(more[j as int]));
                assert((before + more.take(j as int)).push(more[j as int]) =~= before + more.take(
                    j + 1,
                ));
            }
            assert forall|i: int| 0 <= i < ws@.len() implies weighable(
                #[trigger] ws@[i],
                n,
                m as nat,
            ) by {
                if i < old_ws.len() {
                    assert(ws@[i] == old_ws[i]);
                }
            }
        }
        j = j + 1;
    }
    proof {
        assert forall|k: Seq<int>, local: Seq<Quad>| #[trigger]
            values(ws@, k, local) == values(first, k, local) + verify::ood_weights(
                reading::quads(k, entries@),
                m as nat,
                local,
            ) by {
            let more = verify::ood_weights(reading::quads(k, entries@), m as nat, local);
            assert(more.take(j as int) =~= more);
        }
    }
}

/// The weights of query points, after others.
fn push_selects<'a>(
    ws: &mut Vec<Weight<'a>>,
    entries: &Vec<u128>,
    Ghost(m): Ghost<nat>,
    Ghost(n): Ghost<nat>,
)
    requires
        forall|j: int| 0 <= j < entries@.len() ==> (#[trigger] entries@[j]) < n,
        all_weighable(old(ws)@, n, m),
    ensures
        all_weighable(final(ws)@, n, m),
        forall|k: Seq<int>, local: Seq<Quad>| #[trigger]
            values(final(ws)@, k, local) == values(old(ws)@, k, local) + verify::select_weights(
                reading::bases(k, entries@),
                local,
            ),
        final(ws)@.len() == old(ws)@.len() + entries@.len(),
{
    let ghost first = ws@;
    let mut j: usize = 0;
    assert forall|k: Seq<int>, local: Seq<Quad>| #[trigger]
        values(ws@, k, local) == values(first, k, local) + verify::select_weights(
            reading::bases(k, entries@),
            local,
        ).take(0) by {
        let more = verify::select_weights(reading::bases(k, entries@), local);
        assert(values(first, k, local) + more.take(0) =~= values(first, k, local));
    }
    while j < entries.len()
        invariant
            j <= entries@.len(),
            forall|j: int| 0 <= j < entries@.len() ==> (#[trigger] entries@[j]) < n,
            all_weighable(ws@, n, m),
            forall|k: Seq<int>, local: Seq<Quad>| #[trigger]
                values(ws@, k, local) == values(first, k, local) + verify::select_weights(
                    reading::bases(k, entries@),
                    local,
                ).take(j as int),
            ws@.len() == old(ws)@.len() + j,
        decreases entries@.len() - j,
    {
        let z = entries[j];
        let w = Weight::Select { z };
        let ghost old_ws = ws@;
        assert(entries@[j as int] < n);
        ws.push(w);
        proof {
            assert forall|k: Seq<int>, local: Seq<Quad>| #[trigger]
                values(ws@, k, local) == values(first, k, local) + verify::select_weights(
                    reading::bases(k, entries@),
                    local,
                ).take(j + 1) by {
                let more = verify::select_weights(reading::bases(k, entries@), local);
                let before = values(first, k, local);
                assert(value(w, k, local) == more[j as int]);
                assert(values(old_ws, k, local) == before + more.take(j as int));
                assert(values(ws@, k, local) =~= values(old_ws, k, local).push(more[j as int]));
                assert((before + more.take(j as int)).push(more[j as int]) =~= before + more.take(
                    j + 1,
                ));
            }
            assert forall|i: int| 0 <= i < ws@.len() implies weighable(
                #[trigger] ws@[i],
                n,
                m,
            ) by {
                if i < old_ws.len() {
                    assert(ws@[i] == old_ws[i]);
                }
            }
        }
        j = j + 1;
    }
    proof {
        assert forall|k: Seq<int>, local: Seq<Quad>| #[trigger]
            values(ws@, k, local) == values(first, k, local) + verify::select_weights(
                reading::bases(k, entries@),
                local,
            ) by {
            let more = verify::select_weights(reading::bases(k, entries@), local);
            assert(more.take(j as int) =~= more);
        }
    }
}

/// The claims' weights are canonical.
proof fn lemma_claims_canonical(claims: Seq<ClaimShape>, us: Seq<Quad>, local: Seq<Quad>, k: nat)
    ensures
        forall|i: int|
            0 <= i < verify::all_claim_weights(claims, us, local, k).len() ==> ext4::canonical(
                #[trigger] verify::all_claim_weights(claims, us, local, k)[i],
            ),
    decreases k,
{
    if k > 0 {
        let m = (k - 1) as nat;
        lemma_claims_canonical(claims, us, local, m);
        let before = verify::all_claim_weights(claims, us, local, m);
        let all = verify::all_claim_weights(claims, us, local, k);
        assert forall|i: int| 0 <= i < all.len() implies ext4::canonical(#[trigger] all[i]) by {
            if i < before.len() {
                assert(all[i] == before[i]);
            } else {
                let j = i - before.len();
                lemma_eq_canonical(verify::claim_point(claims[k - 1], us[k - 1], j), local);
            }
        }
    }
}

/// The first of the initial weights is canonical.
proof fn lemma_initial_canonical(cfg: VerifyConfig, ch: Draws, local: Seq<Quad>)
    requires
        verify::initial_weights(cfg, ch, local).len() > 0,
    ensures
        ext4::canonical(verify::initial_weights(cfg, ch, local)[0]),
{
    let claims = verify::all_claim_weights(
        cfg.claims@,
        ch.opening_points,
        local,
        cfg.claims@.len(),
    );
    lemma_claims_canonical(cfg.claims@, ch.opening_points, local, cfg.claims@.len());
    if claims.len() > 0 {
        assert(verify::initial_weights(cfg, ch, local)[0] == claims[0]);
    } else {
        lemma_eq_canonical(
            model::expanded(ch.initial_ood_points[0], cfg.num_variables as nat),
            local,
        );
    }
}

/// There are as many initial weights as claimed values.
proof fn lemma_initial_count(cfg: VerifyConfig, data: VerifyData, ch: Draws, local: Seq<Quad>)
    requires
        verify::claims_fit(cfg, data),
        ch.initial_ood_points.len() == data.transcript.initial_ood_answers@.len(),
    ensures
        verify::initial_weights(cfg, ch, local).len() == verify::initial_evals(
            data.transcript,
        ).len(),
{
    lemma_claim_count(cfg, data, ch, local, cfg.claims@.len());
}

proof fn lemma_claim_count(cfg: VerifyConfig, data: VerifyData, ch: Draws, local: Seq<Quad>, k: nat)
    requires
        verify::claims_fit(cfg, data),
        k <= cfg.claims@.len(),
    ensures
        verify::all_claim_weights(cfg.claims@, ch.opening_points, local, k).len() == verify::flat(
            data.transcript.openings@,
            k,
        ).len(),
    decreases k,
{
    if k > 0 {
        lemma_claim_count(cfg, data, ch, local, (k - 1) as nat);
        assert(cfg.claims@[k - 1].selectors@.len() == data.transcript.openings@[k - 1]@.len());
    }
}

/// The entries of all folding randomness before round `i`.
pub open spec fn fold_entries(l: Layout, i: nat) -> Seq<u128>
    decreases i,
{
    if i == 0 {
        l.k_initial_fold@
    } else {
        fold_entries(l, (i - 1) as nat) + l.rounds@[i - 1].k_fold@
    }
}

/// The entries of all folding randomness.
fn all_randomness(l: &Layout, Ghost(n): Ghost<nat>) -> (r: Vec<u128>)
    requires
        in_range(l.k_initial_fold@, n),
        forall|i: int|
            0 <= i < l.rounds@.len() ==> in_range((#[trigger] l.rounds@[i]).k_fold@, n),
        in_range(l.k_final_fold@, n),
    ensures
        in_range(r@, n),
        r@ == fold_entries(*l, l.rounds@.len()) + l.k_final_fold@,
{
    let mut r: Vec<u128> = Vec::new();
    append_entries(&mut r, &l.k_initial_fold, Ghost(n));
    assert(r@ =~= l.k_initial_fold@);
    let mut i: usize = 0;
    while i < l.rounds.len()
        invariant
            i <= l.rounds@.len(),
            in_range(r@, n),
            forall|i: int|
                0 <= i < l.rounds@.len() ==> in_range((#[trigger] l.rounds@[i]).k_fold@, n),
            r@ == fold_entries(*l, i as nat),
        decreases l.rounds@.len() - i,
    {
        assert(in_range(l.rounds@[i as int].k_fold@, n));
        append_entries(&mut r, &l.rounds[i].k_fold, Ghost(n));
        i = i + 1;
    }
    append_entries(&mut r, &l.k_final_fold, Ghost(n));
    r
}

/// The folding randomness stands at those entries.
proof fn lemma_randomness(cfg: VerifyConfig, l: Layout, end: Duplex, u: Seq<int>, k: Seq<int>, i: nat)
    requires
        k == reading::samples(end, u),
        i <= l.rounds@.len(),
    ensures
        reading::quads(k, fold_entries(l, i)) == verify::randomness_at(
            challenges(cfg, l, end, u),
            i,
        ),
    decreases i,
{
    let ch = challenges(cfg, l, end, u);
    if i > 0 {
        lemma_randomness(cfg, l, end, u, k, (i - 1) as nat);
        assert(reading::quads(k, fold_entries(l, i)) =~= reading::quads(
            k,
            fold_entries(l, (i - 1) as nat),
        ) + reading::quads(k, l.rounds@[i - 1].k_fold@));
    }
}

/// The total at `u` is the weight of the constraints before round `i`.
pub open spec fn weighs(
    total: Sym,
    cfg: VerifyConfig,
    l: Layout,
    end: Duplex,
    i: nat,
    u: Seq<int>,
) -> bool {
    let ch = challenges(cfg, l, end, u);
    total.at(u) == verify::weight_at(cfg, ch, verify::randomness(cfg, ch), i)
}

/// The initial constraint's total.
proof fn lemma_initial_total(
    cfg: VerifyConfig,
    data: VerifyData,
    l: Layout,
    end: Duplex,
    k: Seq<Val>,
    all: Seq<Sym>,
    ws: Seq<Weight>,
    u: Seq<int>,
)
    requires
        reading::samples(end, u).len() <= k.len(),
        forall|i: int|
            0 <= i < reading::samples(end, u).len() ==> #[trigger] at(k, u)[i] == reading::samples(
                end,
                u,
            )[i],
        in_range(l.k_claim@, reading::samples(end, u).len()),
        in_range(l.k_ood@, reading::samples(end, u).len()),
        l.k_alpha + 4 <= reading::samples(end, u).len(),
        ats(all, u) == verify::randomness(cfg, challenges(cfg, l, end, u)),
        cfg.num_variables <= all.len(),
        all_weighable(ws, k.len(), cfg.num_variables as nat),
        verify::claims_fit(cfg, data),
        challenges(cfg, l, end, u).initial_ood_points.len()
            == data.transcript.initial_ood_answers@.len(),
        verify::initial_evals(data.transcript).len() > 0,
        forall|k: Seq<int>, local: Seq<Quad>| #[trigger]
            values(ws, k, local) == verify::all_claim_weights(
                cfg.claims@,
                reading::quads(k, l.k_claim@),
                local,
                cfg.claims@.len(),
            ) + verify::ood_weights(
                reading::quads(k, l.k_ood@),
                cfg.num_variables as nat,
                local,
            ),
    ensures
        ({
            let local = symbols::suffix(all, cfg.num_variables as nat);
            let vals = value_syms(ws, k, local);
            let total = added(
                symbols::fixed(ext4::zero()),
                quad_at(k, l.k_alpha as int),
                false,
                vals,
            );
            weighs(total, cfg, l, end, 0, u)
        }),
{
    let ch = challenges(cfg, l, end, u);
    let s = reading::samples(end, u);
    let kk = at(k, u);
    let local = symbols::suffix(all, cfg.num_variables as nat);
    let vals = value_syms(ws, k, local);
    let chi = quad_at(k, l.k_alpha as int);
    let here = ats(local, u);
    assert(here =~= model::suffix(ats(all, u), cfg.num_variables as nat));
    lemma_values(ws, k, local, u);
    reading::lemma_same_quads(s, kk, l.k_claim@);
    reading::lemma_same_quads(s, kk, l.k_ood@);
    let ns = verify::initial_weights(cfg, ch, here);
    assert(ats(vals, u) == ns);
    lemma_initial_count(cfg, data, ch, here);
    assert(vals.len() == ns.len());
    let e = l.k_alpha as int;
    assert(kk[e] == s[e] && kk[e + 1] == s[e + 1] && kk[e + 2] == s[e + 2] && kk[e + 3] == s[e
        + 3]);
    assert(chi.at(u) == ch.alpha);
    symbols::lemma_nested(chi, vals, u);
    lemma_initial_canonical(cfg, ch, here);
    model::law_batched(ch.alpha, ns);
    model::lemma_nested_canonical(ch.alpha, ns);
    ext4::law_plus_zero(model::nested(ch.alpha, ns));
    assert(symbols::fixed(ext4::zero()).at(u) == ext4::zero());
}

/// A round's total.
#[verifier::rlimit(60)]
proof fn lemma_round_total(
    cfg: VerifyConfig,
    l: Layout,
    end: Duplex,
    k: Seq<Val>,
    all: Seq<Sym>,
    ws: Seq<Weight>,
    total: Sym,
    zs: Seq<u128>,
    i: nat,
    u: Seq<int>,
)
    requires
        weighs(total, cfg, l, end, i, u),
        i < l.rounds@.len(),
        reading::samples(end, u).len() <= k.len(),
        forall|i: int|
            0 <= i < reading::samples(end, u).len() ==> #[trigger] at(k, u)[i] == reading::samples(
                end,
                u,
            )[i],
        in_range(l.rounds@[i as int].k_ood@, reading::samples(end, u).len()),
        l.rounds@[i as int].k_combination + 4 <= reading::samples(end, u).len(),
        ats(all, u) == verify::randomness(cfg, challenges(cfg, l, end, u)),
        cfg.rounds@[i as int].num_variables <= all.len(),
        all_weighable(ws, k.len(), cfg.rounds@[i as int].num_variables as nat),
        ws.len() > 0,
        reading::bases(at(k, u), zs) == verify::points(
            verify::generator(cfg, i),
            verify::positions(cfg, challenges(cfg, l, end, u), i),
        ),
        forall|k: Seq<int>, local: Seq<Quad>| #[trigger]
            values(ws, k, local) == verify::ood_weights(
                reading::quads(k, l.rounds@[i as int].k_ood@),
                cfg.rounds@[i as int].num_variables as nat,
                local,
            ) + verify::select_weights(reading::bases(k, zs), local),
    ensures
        ({
            let local = symbols::suffix(all, cfg.rounds@[i as int].num_variables as nat);
            let vals = value_syms(ws, k, local);
            let next = added(total, quad_at(k, l.rounds@[i as int].k_combination as int), true, vals);
            weighs(next, cfg, l, end, i + 1, u)
        }),
{
    let ch = challenges(cfg, l, end, u);
    let s = reading::samples(end, u);
    let kk = at(k, u);
    let n = cfg.rounds@[i as int].num_variables as nat;
    let local = symbols::suffix(all, n);
    let vals = value_syms(ws, k, local);
    let chi = quad_at(k, l.rounds@[i as int].k_combination as int);
    let here = ats(local, u);
    assert(here =~= model::suffix(ats(all, u), n));
    lemma_values(ws, k, local, u);
    reading::lemma_same_quads(s, kk, l.rounds@[i as int].k_ood@);
    let ns = verify::round_weights(cfg, ch, i, here);
    assert(reading::quads(kk, l.rounds@[i as int].k_ood@) == ch.rounds[i as int].ood_points);
    assert(values(ws, kk, here) == ns);
    assert(ats(vals, u) == ns);
    let e = l.rounds@[i as int].k_combination as int;
    assert(kk[e] == s[e] && kk[e + 1] == s[e + 1] && kk[e + 2] == s[e + 2] && kk[e + 3] == s[e
        + 3]);
    assert(chi.at(u) == ch.rounds[i as int].combination);
    symbols::lemma_nested(chi, vals, u);
    model::law_combined(total.at(u), ch.rounds[i as int].combination, ns);
}

/// The weight of every constraint at all the randomness, on the stack.
#[verifier::rlimit(30)]
pub(crate) fn push_total(
    b: &mut Builder,
    l: &Layout,
    cfg: &VerifyConfig,
    data: &VerifyData,
    points: &Vec<Vec<u128>>,
    Ghost(ch): Ghost<Draws>,
    Ghost(end): Ghost<Duplex>,
    Ghost(k): Ghost<Seq<Val>>,
) -> (total: Ghost<Sym>)
    requires
        ready(*old(b), *l, *cfg, *data, ch, end, k),
        measured_draws(*cfg, *data, ch),
        verify::claims_fit(*cfg, *data),
        verify::closes_fit(*cfg, *data, ch),
        cfg.rounds@.len() == verify::last(*cfg),
        verify::initial_evals(data.transcript).len() > 0,
        points@.len() == verify::last(*cfg),
        forall|i: int|
            0 <= i < points@.len() ==> #[trigger] points_on(k, points@[i]@, *cfg, *l, end, i as nat),
    ensures
        final(b).holds(k, none() + sp(total@), none()),
        final(b).same(old(b)),
        forall|u: Seq<int>| #[trigger]
            total@.at(u) == verify::final_weight(*cfg, challenges(*cfg, *l, end, u)),
{
    let ghost n = end.drawn.len();
    let empty: Vec<[u32; 4]> = Vec::new();
    proof {
        super::proof_script::lemma_ranges(*cfg, *data, *l, ch, end);
        assert forall|c: int, j: int|
            0 <= c < cfg.claims@.len() && 0 <= j < cfg.claims@[c].selectors@.len() implies cfg.claims@[c].row_vars
            + (#[trigger] cfg.claims@[c].selectors@[j])@.len() == cfg.num_variables by {
            assert(cfg.claims@[c].selectors@.len() == data.transcript.openings@[c]@.len());
        }
    }
    let all_fold = all_randomness(l, Ghost(n));
    let ghost all = symbols::picked(k, all_fold@);
    proof {
        reading::lemma_picked(k, all_fold@, end.seen);
        assert forall|u: Seq<int>| #[trigger] ats(all, u) == verify::randomness(
            *cfg,
            challenges(*cfg, *l, end, u),
        ) by {
            super::proof_script::lemma_samples(end, k, u);
            let s = reading::samples(end, u);
            reading::lemma_picked(k, all_fold@, u);
            reading::lemma_same_quads(s, at(k, u), all_fold@);
            lemma_randomness(*cfg, *l, end, u, s, l.rounds@.len());
            assert(reading::quads(s, all_fold@) =~= reading::quads(
                s,
                fold_entries(*l, l.rounds@.len()),
            ) + reading::quads(s, l.k_final_fold@));
        }
        super::proof_script::lemma_own(*cfg, *data, *l, ch, end);
        assert(ats(all, end.seen).len() == verify::randomness(*cfg, ch).len());
    }
    let zero: [u32; 4] = [0, 0, 0, 0];
    b.push_ef_const(zero, Ghost(k), Ghost(none()), Ghost(none()));
    assert(ext4::quad(zero@) == ext4::zero());
    let ws = initial_list(l, cfg, &empty, Ghost(k.len()));
    let ghost local = symbols::suffix(all, cfg.num_variables as nat);
    let ghost mut total = added(
        symbols::fixed(ext4::zero()),
        quad_at(k, l.k_alpha as int),
        false,
        value_syms(ws@, k, local),
    );
    proof {
        assert forall|u: Seq<int>| #[trigger] total.at(u) == verify::weight_at(
            *cfg,
            challenges(*cfg, *l, end, u),
            verify::randomness(*cfg, challenges(*cfg, *l, end, u)),
            0,
        ) by {
            super::proof_script::lemma_samples(end, k, u);
            assert(ats(all, u) == verify::randomness(*cfg, challenges(*cfg, *l, end, u)));
            lemma_initial_total(*cfg, *data, *l, end, k, all, ws@, u);
        }
        let here = ats(local, end.seen);
        let kk = at(k, end.seen);
        super::proof_script::lemma_samples(end, k, end.seen);
        reading::lemma_same_quads(end.drawn, kk, l.k_claim@);
        reading::lemma_same_quads(end.drawn, kk, l.k_ood@);
        assert(values(ws@, kk, here) == verify::initial_weights(*cfg, ch, here));
        lemma_initial_count(*cfg, *data, ch, here);
        assert(values(ws@, kk, here).len() == ws@.len());
    }
    b.constraint(
        l.k_alpha,
        cfg.num_variables,
        false,
        &ws,
        &all_fold,
        Ghost(k),
        Ghost(symbols::fixed(ext4::zero())),
        Ghost(all),
    );
    let mut i: usize = 0;
    while i < l.rounds.len()
        invariant
            i <= l.rounds@.len(),
            l.rounds@.len() == verify::last(*cfg),
            b.holds(k, none() + sp(total), none()),
            b.same(old(b)),
            ready(*old(b), *l, *cfg, *data, ch, end, k),
            measured_draws(*cfg, *data, ch),
            verify::closes_fit(*cfg, *data, ch),
            cfg.rounds@.len() == verify::last(*cfg),
            points@.len() == verify::last(*cfg),
            all == symbols::picked(k, all_fold@),
            stand(k, all_fold@, all),
            all.len() == verify::randomness(*cfg, ch).len(),
            forall|u: Seq<int>| #[trigger]
                ats(all, u) == verify::randomness(*cfg, challenges(*cfg, *l, end, u)),
            empty@.len() == 0,
            n == end.drawn.len(),
            n <= k.len(),
            forall|i: int|
                0 <= i < l.rounds@.len() ==> in_range((#[trigger] l.rounds@[i]).k_ood@, n)
                    && l.rounds@[i].k_combination + 4 <= n,
            forall|i: int|
                0 <= i < points@.len() ==> #[trigger] points_on(
                    k,
                    points@[i]@,
                    *cfg,
                    *l,
                    end,
                    i as nat,
                ),
            forall|u: Seq<int>| #[trigger]
                total.at(u) == verify::weight_at(
                    *cfg,
                    challenges(*cfg, *l, end, u),
                    verify::randomness(*cfg, challenges(*cfg, *l, end, u)),
                    i as nat,
                ),
        decreases l.rounds@.len() - i,
    {
        let rl = &l.rounds[i];
        let m = cfg.rounds[i].num_variables;
        proof {
            assert(in_range(l.rounds@[i as int].k_ood@, n));
            let j = i as int;
            assert(points_on(k, points@[j]@, *cfg, *l, end, j as nat));
            assert(cfg.rounds@[i as int].num_variables <= all.len());
        }
        let mut ws: Vec<Weight> = Vec::new();
        push_ood(&mut ws, &rl.k_ood, m, &empty, Ghost(k.len()));
        push_selects(&mut ws, &points[i], Ghost(m as nat), Ghost(k.len()));
        let ghost local = symbols::suffix(all, m as nat);
        let ghost before = total;
        let ghost next = added(
            total,
            quad_at(k, rl.k_combination as int),
            true,
            value_syms(ws@, k, local),
        );
        proof {
            super::proof_script::lemma_own(*cfg, *data, *l, ch, end);
            assert(verify::positions(*cfg, ch, i as nat).len() > 0);
            super::proof_script::lemma_points_on(
                k,
                points@[i as int]@,
                *cfg,
                *l,
                end,
                i as nat,
                end.seen,
            );
            let zs = verify::points(
                verify::generator(*cfg, i as nat),
                verify::positions(*cfg, ch, i as nat),
            );
            assert(reading::bases(at(k, end.seen), points@[i as int]@) == zs);
            assert(points@[i as int]@.len() == zs.len());
            assert(ws@.len() > 0);
            assert forall|k: Seq<int>, local: Seq<Quad>| #[trigger]
                values(ws@, k, local) == verify::ood_weights(
                    reading::quads(k, l.rounds@[i as int].k_ood@),
                    cfg.rounds@[i as int].num_variables as nat,
                    local,
                ) + verify::select_weights(reading::bases(k, points@[i as int]@), local) by {
                let none = Seq::<Weight>::empty();
                assert(values(none, k, local) =~= Seq::<Quad>::empty());
                let more = verify::ood_weights(
                    reading::quads(k, l.rounds@[i as int].k_ood@),
                    cfg.rounds@[i as int].num_variables as nat,
                    local,
                );
                assert(Seq::<Quad>::empty() + more =~= more);
            }
            assert forall|u: Seq<int>| #[trigger] next.at(u) == verify::weight_at(
                *cfg,
                challenges(*cfg, *l, end, u),
                verify::randomness(*cfg, challenges(*cfg, *l, end, u)),
                (i + 1) as nat,
            ) by {
                super::proof_script::lemma_samples(end, k, u);
                assert(ats(all, u) == verify::randomness(*cfg, challenges(*cfg, *l, end, u)));
                assert(total.at(u) == verify::weight_at(
                    *cfg,
                    challenges(*cfg, *l, end, u),
                    verify::randomness(*cfg, challenges(*cfg, *l, end, u)),
                    i as nat,
                ));
                super::proof_script::lemma_points_on(
                    k,
                    points@[i as int]@,
                    *cfg,
                    *l,
                    end,
                    i as nat,
                    u,
                );
                lemma_round_total(
                    *cfg,
                    *l,
                    end,
                    k,
                    all,
                    ws@,
                    total,
                    points@[i as int]@,
                    i as nat,
                    u,
                );
            }
        }
        b.constraint(
            rl.k_combination,
            m,
            true,
            &ws,
            &all_fold,
            Ghost(k),
            Ghost(total),
            Ghost(all),
        );
        proof {
            total = next;
        }
        i = i + 1;
    }
    Ghost(total)
}

/// The closing identity: the claim is the weights times the final polynomial at the
/// final randomness.
pub(crate) fn close(
    b: &mut Builder,
    l: &Layout,
    count: usize,
    claim: u128,
    Ghost(total): Ghost<Sym>,
    Ghost(k): Ghost<Seq<Val>>,
)
    requires
        old(b).holds(k, none() + sp(total), none()),
        in_range(l.k_final_fold@, k.len()),
        l.final_poly + 4 * count <= old(b).tape.data@.len(),
        count == pow2(l.k_final_fold@.len()),
        claim + 4 <= k.len(),
    ensures
        final(b).holds(k, none(), none()),
        final(b).tape.data@ == old(b).tape.data@,
        final(b).census() == old(b).census(),
        final(b).tape.ok@ == both(
            old(b).tape.ok@,
            closing(*l, count as nat, total, quad_at(k, claim as int), k),
        ),
{
    let ghost t = none() + sp(total);
    let ghost table = reading::row_syms(true, l.final_poly as int, count as nat);
    let ghost point = symbols::picked(k, l.k_final_fold@);
    let ghost s = b.stream();
    assert(b.tape.data.len() == b.tape.data@.len());
    proof {
        reading::lemma_picked(k, l.k_final_fold@, Seq::empty());
        lemma_table(s.len(), l.final_poly as int, count as nat);
    }
    b.push_data(l.final_poly, 4 * (count as u128), Ghost(k), Ghost(t), Ghost(none()));
    let mut i: usize = 0;
    assert(alt_spread(point.take(0)) =~= none());
    while i < l.k_final_fold.len()
        invariant
            i <= l.k_final_fold@.len(),
            stand(k, l.k_final_fold@, point),
            b.holds(k, t + spread(table), alt_spread(point.take(i as int))),
            b.same(old(b)),
        decreases l.k_final_fold@.len() - i,
    {
        let ghost a = alt_spread(point.take(i as int));
        let ghost x = point[i as int];
        assert(l.k_final_fold@[i as int] + 4 <= k.len());
        b.push_kept_ef(l.k_final_fold[i], Ghost(k), Ghost(t + spread(table)), Ghost(a));
        b.ef_to_alt(Ghost(k), Ghost(t + spread(table)), Ghost(x), Ghost(a));
        proof {
            symbols::lemma_spread_push(point.take(i as int), x);
            assert(point.take(i as int).push(x) =~= point.take(i + 1));
        }
        i = i + 1;
    }
    assert(point.take(i as int) =~= point);
    b.evaluate(
        l.k_final_fold.len(),
        count,
        Ghost(k),
        Ghost(t),
        Ghost(table),
        Ghost(point),
    );
    let ghost v = symbols::multilinear(table, point);
    b.ef_mul(Ghost(k), Ghost(none()), Ghost(total), Ghost(v), Ghost(none()));
    let ghost right = symbols::times(total, v);
    b.push_kept_ef(claim, Ghost(k), Ghost(none() + sp(right)), Ghost(none()));
    b.equal_verify_ef(
        Ghost(k),
        Ghost(none()),
        Ghost(right),
        Ghost(quad_at(k, claim as int)),
        Ghost(none()),
    );
}

/// The closing identity on all data.
pub open spec fn closing(l: Layout, count: nat, total: Sym, claim: Sym, k: Seq<Val>) -> Cond {
    symbols::same(
        symbols::times(
            total,
            symbols::multilinear(
                reading::row_syms(true, l.final_poly as int, count),
                symbols::picked(k, l.k_final_fold@),
            ),
        ),
        claim,
    )
}

/// Extension elements of the data on a stack.
proof fn lemma_table(n: nat, at: int, count: nat)
    requires
        0 <= at,
        at + 4 * count <= n,
    ensures
        symbols::data(n).subrange(at, at + 4 * count) == spread(
            reading::row_syms(true, at, count),
        ),
{
    let s = symbols::data(n).subrange(at, at + 4 * count);
    let t = reading::row_syms(true, at, count);
    assert forall|i: int| 0 <= i < 4 * count implies s[i] == spread(t)[i] by {
        let (j, r) = (i / 4, i % 4);
        assert(i == 4 * j + r);
        symbols::lemma_slot(t, j, r);
    }
    assert(s =~= spread(t));
}

} // verus!

//! The arithmetic a verifier script does on kept and data values.
use super::arith::EF_ONE;
use super::builder::{lemma_one, lemma_two, sp, Builder};
use super::script;
use super::script::Op;
use super::symbols;
use super::symbols::{
    alt_spread, none, pairs_stand, prefix, quad_at, spread, stand, Sym, Val,
};
use crate::poseidon2::ext4;
use vstd::prelude::*;

verus! {

broadcast use {
    symbols::lemma_spread_len,
    symbols::lemma_alt_spread_len,
    script::lemma_census_push,
};

/// Appending keeps what was there.
pub proof fn lemma_prefix_append(k: Seq<Val>, more: Seq<Val>)
    ensures
        prefix(k, k + more),
{
}

/// An extension element appended to the kept region.
pub proof fn lemma_appended(k: Seq<Val>, q: Sym)
    ensures
        prefix(k, k + sp(q)),
        quad_at(k + sp(q), k.len() as int) == q,
        (k + sp(q)).len() == k.len() + 4,
{
    lemma_one(q);
}

/// One element more on a list of elements.
proof fn lemma_more(qs: Seq<Sym>, q: Sym)
    ensures
        spread(qs) + sp(q) == spread(qs.push(q)),
        alt_spread(qs) + alt_spread(seq![q]) == alt_spread(qs.push(q)),
{
    symbols::lemma_spread_push(qs, q);
}

/// The first list of two.
proof fn lemma_read_first(first: Seq<Sym>, second: Seq<Sym>)
    ensures
        symbols::elems(spread(first) + spread(second), 0, first.len()) == first,
{
    reveal(symbols::elems);
    let s = spread(first) + spread(second);
    let r = symbols::elems(s, 0, first.len());
    assert forall|i: int| 0 <= i < first.len() implies r[i] == first[i] by {
        symbols::lemma_read(none(), first, i);
        assert(none() + spread(first) =~= spread(first));
    }
    assert(r =~= first);
}

/// An element of a list in the middle of a stack.
proof fn lemma_element(head: Seq<Val>, list: Seq<Sym>, tail: Seq<Val>, j: int)
    requires
        0 <= j < list.len(),
    ensures
        forall|i: int|
            0 <= i < 4 ==> #[trigger] ((head + spread(list)) + tail)[head.len() + 4 * j + i] == sp(
                list[j],
            )[i],
{
    let w = (head + spread(list)) + tail;
    assert forall|i: int| 0 <= i < 4 implies #[trigger] w[head.len() + 4 * j + i] == sp(
        list[j],
    )[i] by {
        assert(w[head.len() + 4 * j + i] == spread(list)[4 * j + i]);
        symbols::lemma_slot(list, j, i);
        symbols::lemma_slot(seq![list[j]], 0, i);
    }
}

/// What combining answers reads.
proof fn lemma_combined_reads(q: Sym, x: Sym, all: Seq<Sym>)
    ensures
        quad_at((none() + sp(q)) + sp(x), 0) == q,
        quad_at((none() + sp(q)) + sp(x), 4) == x,
        symbols::alt_elems(alt_spread(all), 0, all.len()) == all,
{
    lemma_two(none(), q, x);
    assert(none() + spread(seq![q, x]) =~= spread(seq![q, x]));
    symbols::lemma_alt_spread(all);
}

/// What an equality weight reads.
proof fn lemma_weighed_reads(local: Seq<Sym>, ws: Seq<Sym>, point: Seq<Sym>)
    ensures
        symbols::elems(spread(local) + spread(ws), 0, local.len()) == local,
        symbols::alt_elems(alt_spread(point), 0, point.len()) == point,
{
    symbols::lemma_alt_spread(point);
    lemma_read_first(local, ws);
}

impl Builder {
    /// `sum_i chi^i e_i` by Horner, `chi` kept and each `e_i` in the data.
    pub(crate) fn batch(
        &mut self,
        chi: u128,
        evals: &[u128],
        Ghost(k): Ghost<Seq<Val>>,
        Ghost(vals): Ghost<Seq<Sym>>,
    )
        requires
            old(self).holds(k, none(), none()),
            evals@.len() > 0,
            stand(old(self).stream(), evals@, vals),
            chi + 4 <= k.len(),
        ensures
            final(self).holds(
                k,
                none() + sp(symbols::nested(quad_at(k, chi as int), vals)),
                none(),
            ),
            final(self).same(old(self)),
    {
        let ghost x = quad_at(k, chi as int);
        let mut i = evals.len() - 1;
        assert(evals@[i as int] + 4 <= self.tape.data@.len());
        self.push_data_ef(evals[i], Ghost(k), Ghost(none()), Ghost(none()));
        assert(vals.skip(i as int)[0] == vals[i as int]);
        while i > 0
            invariant
                i < evals@.len(),
                self.holds(k, none() + sp(symbols::nested(x, vals.skip(i as int))), none()),
                self.same(old(self)),
                stand(self.stream(), evals@, vals),
                chi + 4 <= k.len(),
                x == quad_at(k, chi as int),
            decreases i,
        {
            let ghost h = symbols::nested(x, vals.skip(i as int));
            self.push_kept_ef(chi, Ghost(k), Ghost(none() + sp(h)), Ghost(none()));
            self.ef_mul(Ghost(k), Ghost(none()), Ghost(h), Ghost(x), Ghost(none()));
            i = i - 1;
            let ghost y = symbols::times(h, x);
            assert(evals@[i as int] + 4 <= self.tape.data@.len());
            self.push_data_ef(evals[i], Ghost(k), Ghost(none() + sp(y)), Ghost(none()));
            self.ef_add(
                Ghost(k),
                Ghost(none()),
                Ghost(y),
                Ghost(vals[i as int]),
                Ghost(none()),
            );
            proof {
                assert(vals.skip(i as int).drop_first() =~= vals.skip(i + 1));
                assert(vals.skip(i as int)[0] == vals[i as int]);
            }
        }
        assert(vals.skip(0) =~= vals);
    }

    /// One sumcheck round on the kept claim: `claim <- h(r)`.
    pub(crate) fn sumcheck_round(
        &mut self,
        claim: u128,
        c0: u128,
        c_inf: u128,
        r: u128,
        Ghost(k): Ghost<Seq<Val>>,
    ) -> (e: u128)
        requires
            old(self).holds(k, none(), none()),
            claim + 4 <= k.len(),
            r + 4 <= k.len(),
            c0 + 4 <= old(self).tape.data@.len(),
            c_inf + 4 <= old(self).tape.data@.len(),
        ensures
            final(self).holds(
                k + sp(
                    symbols::sumcheck_step(
                        quad_at(k, claim as int),
                        quad_at(old(self).stream(), c0 as int),
                        quad_at(old(self).stream(), c_inf as int),
                        quad_at(k, r as int),
                    ),
                ),
                none(),
                none(),
            ),
            final(self).more(old(self), script::folded(1)),
            e == k.len(),
    {
        let ghost s = self.stream();
        let ghost (q, x, y, z) = (
            quad_at(k, claim as int),
            quad_at(s, c0 as int),
            quad_at(s, c_inf as int),
            quad_at(k, r as int),
        );
        let ghost t1 = none() + sp(q);
        let ghost t2 = t1 + sp(x);
        let ghost t3 = t2 + sp(y);
        let ghost t4 = t3 + sp(z);
        self.push_kept_ef(claim, Ghost(k), Ghost(none()), Ghost(none()));
        self.push_data_ef(c0, Ghost(k), Ghost(t1), Ghost(none()));
        self.push_data_ef(c_inf, Ghost(k), Ghost(t2), Ghost(none()));
        self.push_kept_ef(r, Ghost(k), Ghost(t3), Ghost(none()));
        proof {
            lemma_one(q);
            lemma_one(x);
            lemma_one(y);
            lemma_one(z);
            assert(quad_at(t4, 0) == q && quad_at(t4, 4) == x && quad_at(t4, 8) == y && quad_at(
                t4,
                12,
            ) == z);
            lemma_one(symbols::sumcheck_step(q, x, y, z));
            symbols::effect_sumcheck(t4);
        }
        let ghost v = sp(symbols::sumcheck_step(q, x, y, z));
        self.tape.plain(Op::SumcheckRound, Ghost(k), Ghost(t4), Ghost(v));
        self.temps = self.temps - 12;
        self.bury(4, Ghost(k), Ghost(sp(symbols::sumcheck_step(q, x, y, z))), Ghost(none()))
    }

    /// A whole sumcheck on the kept claim.
    pub(crate) fn sumcheck_rounds(
        &mut self,
        claim: u128,
        messages: &[(u128, u128)],
        challenges: &[u128],
        Ghost(k): Ghost<Seq<Val>>,
        Ghost(q): Ghost<Sym>,
        Ghost(polys): Ghost<Seq<(Sym, Sym)>>,
        Ghost(rs): Ghost<Seq<Sym>>,
    ) -> (r: (u128, Ghost<Seq<Val>>))
        requires
            old(self).holds(k, none(), none()),
            claim + 4 <= k.len(),
            quad_at(k, claim as int) == q,
            pairs_stand(old(self).stream(), messages@, polys),
            stand(k, challenges@, rs),
            polys.len() == rs.len(),
        ensures
            final(self).holds(r.1@, none(), none()),
            final(self).more(old(self), script::folded(messages@.len())),
            prefix(k, r.1@),
            r.0 + 4 <= r.1@.len(),
            quad_at(r.1@, r.0 as int) == symbols::sumcheck_claim(q, polys, rs, polys.len()),
    {
        let mut e = claim;
        let ghost mut cur = k;
        let mut i: usize = 0;
        while i < messages.len()
            invariant
                i <= messages@.len(),
                self.holds(cur, none(), none()),
                self.more(old(self), script::folded(i as nat)),
                prefix(k, cur),
                e + 4 <= cur.len(),
                quad_at(cur, e as int) == symbols::sumcheck_claim(q, polys, rs, i as nat),
                pairs_stand(self.stream(), messages@, polys),
                stand(k, challenges@, rs),
                polys.len() == rs.len(),
            decreases messages@.len() - i,
        {
            let (c0, c_inf) = messages[i];
            let x = challenges[i];
            proof {
                assert(messages@[i as int].0 + 4 <= self.tape.data@.len());
                assert(challenges@[i as int] + 4 <= k.len());
                symbols::lemma_quad_prefix(k, cur, x as int);
            }
            e = self.sumcheck_round(e, c0, c_inf, x, Ghost(cur));
            i = i + 1;
            proof {
                let v = symbols::sumcheck_claim(q, polys, rs, i as nat);
                lemma_appended(cur, v);
                cur = cur + sp(v);
            }
        }
        (e, Ghost(cur))
    }

    /// `claim <- claim + sum_i gamma^(i+1) y_i` over the out-of-domain answers of
    /// the data, then the kept folds.
    pub(crate) fn combine(
        &mut self,
        claim: u128,
        gamma: u128,
        ood: &[u128],
        folds: &[u128],
        Ghost(k): Ghost<Seq<Val>>,
        Ghost(answers): Ghost<Seq<Sym>>,
        Ghost(folded): Ghost<Seq<Sym>>,
    ) -> (e: u128)
        requires
            old(self).holds(k, none(), none()),
            claim + 4 <= k.len(),
            gamma + 4 <= k.len(),
            stand(old(self).stream(), ood@, answers),
            stand(k, folds@, folded),
            ood@.len() + folds@.len() > 0,
        ensures
            final(self).holds(
                k + sp(
                    symbols::weighted(
                        quad_at(k, claim as int),
                        quad_at(k, gamma as int),
                        1,
                        answers + folded,
                    ),
                ),
                none(),
                none(),
            ),
            final(self).same(old(self)),
            e == k.len(),
    {
        let ghost (q, x) = (quad_at(k, claim as int), quad_at(k, gamma as int));
        let ghost t = (none() + sp(q)) + sp(x);
        self.push_kept_ef(claim, Ghost(k), Ghost(none()), Ghost(none()));
        self.push_kept_ef(gamma, Ghost(k), Ghost(none() + sp(q)), Ghost(none()));
        let mut i: usize = 0;
        assert(alt_spread(answers.take(0)) =~= none());
        while i < ood.len()
            invariant
                i <= ood@.len(),
                self.holds(k, t, alt_spread(answers.take(i as int))),
                self.same(old(self)),
                stand(self.stream(), ood@, answers),
            decreases ood@.len() - i,
        {
            let ghost a = alt_spread(answers.take(i as int));
            let ghost y = answers[i as int];
            assert(ood@[i as int] + 4 <= self.tape.data@.len());
            self.push_data_ef(ood[i], Ghost(k), Ghost(t), Ghost(a));
            self.ef_to_alt(Ghost(k), Ghost(t), Ghost(y), Ghost(a));
            proof {
                lemma_more(answers.take(i as int), y);
                assert(answers.take(i as int).push(y) =~= answers.take(i + 1));
            }
            i = i + 1;
        }
        let mut j: usize = 0;
        proof {
            assert(answers.take(i as int) =~= answers + folded.take(0));
        }
        while j < folds.len()
            invariant
                j <= folds@.len(),
                self.holds(k, t, alt_spread(answers + folded.take(j as int))),
                self.same(old(self)),
                stand(k, folds@, folded),
            decreases folds@.len() - j,
        {
            let ghost a = alt_spread(answers + folded.take(j as int));
            let ghost y = folded[j as int];
            assert(folds@[j as int] + 4 <= k.len());
            self.push_kept_ef(folds[j], Ghost(k), Ghost(t), Ghost(a));
            self.ef_to_alt(Ghost(k), Ghost(t), Ghost(y), Ghost(a));
            proof {
                lemma_more(answers + folded.take(j as int), y);
                assert((answers + folded.take(j as int)).push(y) =~= answers + folded.take(j + 1));
            }
            j = j + 1;
        }
        let count: u128 = ood.len() as u128 + folds.len() as u128;
        assert(folded.take(j as int) =~= folded);
        self.combine_all(count, Ghost(k), Ghost(q), Ghost(x), Ghost(answers + folded))
    }

    /// Combines the `count` answers on the alternative stack into the claim.
    fn combine_all(
        &mut self,
        count: u128,
        Ghost(k): Ghost<Seq<Val>>,
        Ghost(q): Ghost<Sym>,
        Ghost(x): Ghost<Sym>,
        Ghost(all): Ghost<Seq<Sym>>,
    ) -> (e: u128)
        requires
            old(self).holds(k, (none() + sp(q)) + sp(x), alt_spread(all)),
            count == all.len(),
            count > 0,
        ensures
            final(self).holds(k + sp(symbols::weighted(q, x, 1, all)), none(), none()),
            final(self).same(old(self)),
            e == k.len(),
    {
        let ghost t = (none() + sp(q)) + sp(x);
        let ghost a = alt_spread(all);
        let ghost v = symbols::weighted(q, x, 1, all);
        proof {
            lemma_combined_reads(q, x, all);
            symbols::effect_combine((count - 1) as u128, t, a);
            assert(none() + a =~= a);
            lemma_one(v);
            assert(t.len() == 8);
        }
        self.tape.emit(
            Op::CombineAnswers(count - 1),
            Ghost(k),
            Ghost(t),
            Ghost(none()),
            Ghost(a),
            Ghost(sp(v)),
            Ghost(none()),
        );
        self.temps = self.temps - 4;
        assert(none() + none() =~= none());
        self.bury(4, Ghost(k), Ghost(sp(v)), Ghost(none()))
    }

    /// The select weight of the kept base element `z` at the `n` extension
    /// elements `local` on the stack under `under` others.
    pub(crate) fn select_weight(
        &mut self,
        z: u128,
        n: usize,
        under: usize,
        Ghost(k): Ghost<Seq<Val>>,
        Ghost(t): Ghost<Seq<Val>>,
        Ghost(local): Ghost<Seq<Sym>>,
        Ghost(ws): Ghost<Seq<Sym>>,
    )
        requires
            old(self).holds(k, (t + spread(local)) + spread(ws), none()),
            local.len() == n,
            ws.len() == under,
            z < k.len(),
        ensures
            final(self).holds(
                k,
                ((t + spread(local)) + spread(ws)) + sp(
                    symbols::selected(symbols::fixed(ext4::one()), k[z as int], local),
                ),
                none(),
            ),
            final(self).same(old(self)),
    {
        let ghost b = (t + spread(local)) + spread(ws);
        let ghost goal = symbols::selected(symbols::fixed(ext4::one()), k[z as int], local);
        self.push_ef_const(EF_ONE, Ghost(k), Ghost(b), Ghost(none()));
        assert(ext4::quad(EF_ONE@) == ext4::one());
        let ghost mut acc = symbols::fixed(ext4::one());
        let ghost mut var = k[z as int];
        self.push_kept(z, 1, Ghost(k), Ghost(b + sp(acc)), Ghost(none()));
        assert(k.subrange(z as int, z + 1) =~= seq![var]);
        let mut i = n;
        assert(local.take(n as int) =~= local);
        while i > 0
            invariant
                i <= n,
                local.len() == n,
                ws.len() == under,
                b == (t + spread(local)) + spread(ws),
                self.holds(k, (b + sp(acc)) + seq![var], none()),
                self.same(old(self)),
                symbols::selected(acc, var, local.take(i as int)) == goal,
            decreases i,
        {
            let ghost r = local[i - 1];
            let ghost u = b + sp(acc);
            let ghost u1 = u + seq![var];
            proof {
                assert(local.take(i as int).last() == r);
                assert(local.take(i as int).drop_last() =~= local.take(i - 1));
                lemma_one(acc);
            }
            self.tape.dup();
            self.tape.push(1);
            self.tape.field_sub();
            let ghost less = symbols::base_minus(var, symbols::constant(1));
            assert(self.tape.work@ =~= (k + u).push(var).push(less));
            // `r`'s deepest slot, below the weights, the accumulator and two more.
            let d: u128 = 4 * (under as u128) + 6 + 4 * ((n - i) as u128) + 3;
            self.copy_element(d, i - 1, Ghost(k), Ghost(t), Ghost(local), Ghost(ws), Ghost(acc), Ghost(var), Ghost(less));
            self.tape.roll(4);
            proof {
                lemma_one(r);
                let base = k + u;
                assert(self.tape.work@ =~= ((base + seq![var]) + sp(r)) + seq![less]);
                assert(self.tape.work@ =~= k + (((u + seq![var]) + sp(r)) + seq![less]));
            }
            assert(self.tape.ops.len() == self.tape.ops@.len());
            self.temps = self.temps + 5;
            self.ef_mul_base(
                Ghost(k),
                Ghost(u1),
                Ghost(r),
                Ghost(less),
                Ghost(none()),
            );
            let ghost p = symbols::times(r, symbols::lifted(less));
            self.push_ef_const(
                EF_ONE,
                Ghost(k),
                Ghost(u1 + sp(p)),
                Ghost(none()),
            );
            self.ef_add(
                Ghost(k),
                Ghost(u1),
                Ghost(p),
                Ghost(symbols::fixed(ext4::one())),
                Ghost(none()),
            );
            let ghost f = symbols::select_factor(var, r);
            // The accumulator times the factor, the variable aside; then squared.
            proof {
                lemma_one(f);
            }
            self.tape.roll(4);
            assert(self.tape.work@ =~= (k + (u + sp(f))).push(var));
            self.tape.to_alt();
            assert(self.tape.work@ =~= k + ((b + sp(acc)) + sp(f)));
            assert(self.tape.alt@ =~= seq![var]);
            self.temps = self.temps - 1;
            let ghost aside = seq![var];
            self.ef_mul(Ghost(k), Ghost(b), Ghost(acc), Ghost(f), Ghost(aside));
            self.tape.from_alt();
            self.tape.dup();
            self.tape.field_mul();
            assert(self.tape.ops.len() == self.tape.ops@.len());
            self.temps = self.temps + 1;
            i = i - 1;
            proof {
                acc = symbols::times(acc, f);
                var = symbols::base_times(var, var);
                assert(self.tape.work@ =~= k + ((b + sp(acc)) + seq![var]));
                assert(self.tape.alt@ =~= none());
            }
        }
        assert(acc == goal);
        let ghost top = seq![var];
        self.drop(1, Ghost(k), Ghost(b + sp(acc)), Ghost(top), Ghost(none()));
    }

    /// Copies element `j` of `local` over the accumulator and two base elements.
    fn copy_element(
        &mut self,
        d: u128,
        j: usize,
        Ghost(k): Ghost<Seq<Val>>,
        Ghost(t): Ghost<Seq<Val>>,
        Ghost(local): Ghost<Seq<Sym>>,
        Ghost(ws): Ghost<Seq<Sym>>,
        Ghost(acc): Ghost<Sym>,
        Ghost(var): Ghost<Val>,
        Ghost(less): Ghost<Val>,
    )
        requires
            old(self).tape.sound(),
            old(self).tape.work@ == (k + (((t + spread(local)) + spread(ws)) + sp(acc))).push(
                var,
            ).push(less),
            j < local.len(),
            d == 4 * ws.len() + 6 + 4 * (local.len() - 1 - j) + 3,
        ensures
            final(self).tape.sound(),
            final(self).tape.work@ == old(self).tape.work@ + sp(local[j as int]),
            final(self).tape.alt@ == old(self).tape.alt@,
            final(self).same(old(self)),
            final(self).kept == old(self).kept,
            final(self).temps == old(self).temps,
            final(self).state == old(self).state,
    {
        let ghost w = self.tape.work@;
        let ghost r = local[j as int];
        let ghost rs = sp(r);
        let ghost at = k.len() + t.len() + 4 * j;
        proof {
            lemma_one(r);
            lemma_one(acc);
            let tail = (spread(ws) + sp(acc)).push(var).push(less);
            assert(w =~= ((k + t) + spread(local)) + tail);
            lemma_element(k + t, local, tail, j as int);
            assert(w + rs.take(0) =~= w);
        }
        let mut c: usize = 0;
        while c < 4
            invariant
                c <= 4,
                rs.len() == 4,
                self.tape.sound(),
                self.tape.work@ == w + rs.take(c as int),
                9 <= d < w.len(),
                at == w.len() - 1 - d,
                forall|i: int| 0 <= i < 4 ==> #[trigger] w[at + i] == rs[i],
                self.tape.alt@ == old(self).tape.alt@,
                self.same(old(self)),
                self.kept == old(self).kept,
                self.temps == old(self).temps,
                self.state == old(self).state,
            decreases 4 - c,
        {
            assert(w[at + c] == rs[c as int]);
            self.tape.copy(d);
            c = c + 1;
            assert(self.tape.work@ =~= w + rs.take(c as int));
        }
        assert(rs.take(4) =~= rs);
    }

    /// `eq(point, local)` for a point that expands the kept `u` to `m` coordinates
    /// with `suffix` hypercube coordinates after them.
    pub(crate) fn eq_weight(
        &mut self,
        u: u128,
        m: usize,
        suffix: &[[u32; 4]],
        under: usize,
        Ghost(k): Ghost<Seq<Val>>,
        Ghost(t): Ghost<Seq<Val>>,
        Ghost(local): Ghost<Seq<Sym>>,
        Ghost(ws): Ghost<Seq<Sym>>,
    )
        requires
            old(self).holds(k, (t + spread(local)) + spread(ws), none()),
            local.len() == m + suffix@.len(),
            local.len() <= usize::MAX,
            ws.len() == under,
            u + 4 <= k.len(),
        ensures
            final(self).holds(
                k,
                ((t + spread(local)) + spread(ws)) + sp(
                    symbols::eq_at(
                        symbols::expanded(quad_at(k, u as int), m as nat) + symbols::fixed_list(ext4::quads(suffix@)),
                        local,
                    ),
                ),
                none(),
            ),
            final(self).same(old(self)),
    {
        let ghost b = (t + spread(local)) + spread(ws);
        let ghost x = quad_at(k, u as int);
        let ghost e = symbols::expanded(x, m as nat);
        let ghost cs = symbols::fixed_list(ext4::quads(suffix@));
        self.push_kept_ef(u, Ghost(k), Ghost(b), Ghost(none()));
        proof {
            lemma_one(x);
            symbols::effect_expand(m, x);
            assert(k + (b + sp(x)) =~= (k + b) + sp(x));
            assert(none() + none() =~= none());
        }
        self.tape.emit(
            Op::ExpandUnivariate(m),
            Ghost(k + b),
            Ghost(sp(x)),
            Ghost(none()),
            Ghost(none()),
            Ghost(none()),
            Ghost(alt_spread(e)),
        );
        self.temps = self.temps - 4;
        proof {
            assert((k + b) + none() =~= k + b);
            assert(e + cs.take(0) =~= e);
            assert(none() + alt_spread(e) =~= alt_spread(e));
        }
        let mut i: usize = 0;
        while i < suffix.len()
            invariant
                i <= suffix@.len(),
                cs == symbols::fixed_list(ext4::quads(suffix@)),
                self.holds(k, b, alt_spread(e + cs.take(i as int))),
                self.same(old(self)),
            decreases suffix@.len() - i,
        {
            let ghost a = alt_spread(e + cs.take(i as int));
            let c = suffix[i];
            let ghost q = symbols::fixed(ext4::quad(c@));
            self.push_ef_const(c, Ghost(k), Ghost(b), Ghost(a));
            self.ef_to_alt(Ghost(k), Ghost(b), Ghost(q), Ghost(a));
            proof {
                lemma_more(e + cs.take(i as int), q);
                assert((e + cs.take(i as int)).push(q) =~= e + cs.take(i + 1));
            }
            i = i + 1;
        }
        let n = m + suffix.len();
        assert(cs.take(i as int) =~= cs);
        self.eq_push(n, under, Ghost(k), Ghost(t), Ghost(local), Ghost(ws), Ghost(e + cs));
    }

    /// Pushes the equality polynomial of `local` and the point on the alternative
    /// stack.
    fn eq_push(
        &mut self,
        n: usize,
        under: usize,
        Ghost(k): Ghost<Seq<Val>>,
        Ghost(t): Ghost<Seq<Val>>,
        Ghost(local): Ghost<Seq<Sym>>,
        Ghost(ws): Ghost<Seq<Sym>>,
        Ghost(point): Ghost<Seq<Sym>>,
    )
        requires
            old(self).holds(k, (t + spread(local)) + spread(ws), alt_spread(point)),
            local.len() == n,
            point.len() == n,
            ws.len() == under,
        ensures
            final(self).holds(
                k,
                ((t + spread(local)) + spread(ws)) + sp(symbols::eq_at(point, local)),
                none(),
            ),
            final(self).same(old(self)),
    {
        let ghost b = (t + spread(local)) + spread(ws);
        let ghost v = symbols::eq_at(point, local);
        let ghost read = spread(local) + spread(ws);
        let ghost a = alt_spread(point);
        proof {
            assert(k + b =~= (k + t) + read);
            lemma_weighed_reads(local, ws, point);
            symbols::effect_eq(n, under, read, a);
            assert(none() + a =~= a);
            lemma_one(v);
            assert(read.len() == 4 * (n + under));
        }
        self.tape.emit(
            Op::EqEvalAt { n, under },
            Ghost(k + t),
            Ghost(read),
            Ghost(none()),
            Ghost(a),
            Ghost(read + sp(v)),
            Ghost(none()),
        );
        assert(self.tape.ops.len() == self.tape.ops@.len());
        self.temps = self.temps + 4;
        proof {
            assert((k + t) + (read + sp(v)) =~= k + (b + sp(v)));
            assert(none() + none() =~= none());
        }
    }
}

} // verus!

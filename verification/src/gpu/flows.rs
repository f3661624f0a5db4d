//! What the flow systems mean, in parts of a unit.
use vstd::prelude::*;

use crate::algo::dominance::needs;
use crate::gpu::linear::{
    coeffs_to, column_order, merged_to, owned_to, product, relaxed, right_side, row, row_uses,
    score_to, use_of, FlowSystem,
};
use crate::gpu::subgraph::{table_to, CandidateTable, Cut, Sub, SubgraphData};
use crate::model::{MaterialId, RecipeId};
use crate::program::{total, total_step};
use crate::scalar::{Arithmetic, Scalar};
use crate::scale::{floors, Scale};

verus! {

/// The uses of a material at the places from `from` on that the recipe of `j` makes.
pub open spec fn used_by(
    w: Scale,
    sg: SubgraphData,
    cand: CandidateTable,
    from: int,
    j: u32,
) -> spec_fn(int) -> int {
    |k: int|
        if cand.owner@[sg.cons_recipes@[from + k] as int] == j {
            (w.of)(sg.cons_qty@[from + k])
        } else {
            0
        }
}

proof fn owned_uses(
    w: Scale,
    sg: SubgraphData,
    cand: CandidateTable,
    from: int,
    to: int,
    j: u32,
)
    requires
        0 <= from <= to,
        j != u32::MAX,
    ensures
        needs(w, owned_to(sg, cand, from, to), j) == total(
            (to - from) as nat,
            used_by(w, sg, cand, from, j),
        ),
    decreases to - from,
{
    if from < to {
        owned_uses(w, sg, cand, from, to - 1, j);
        total_step((to - from) as nat, used_by(w, sg, cand, from, j));
        let rest = owned_to(sg, cand, from, to - 1);
        let now = owned_to(sg, cand, from, to);
        if now.len() > rest.len() {
            assert(now.drop_last() =~= rest);
        }
    }
}

/// The uses that count are those of recipes that are run.
pub proof fn uses_are_owned(
    w: Scale,
    sg: SubgraphData,
    cand: CandidateTable,
    i: int,
    j: u32,
)
    requires
        sg.wf(),
        0 <= i < sg.materials@.len(),
        j != u32::MAX,
    ensures
        ({
            let from = sg.cons_offsets@[i] as int;
            let to = sg.cons_offsets@[i + 1] as int;
            needs(w, owned_to(sg, cand, from, to), j) == total(
                (to - from) as nat,
                used_by(w, sg, cand, from, j),
            )
        }),
{
    owned_uses(w, sg, cand, sg.cons_offsets@[i] as int, sg.cons_offsets@[i + 1] as int, j);
}

/// Sums of amounts of one column are within range.
pub open spec fn merges_within<B: Arithmetic>(w: Scale, single: B, s: Seq<(u32, Scalar)>) -> bool {
    &&& forall|i: int| 0 <= i < s.len() ==> (w.fits)((#[trigger] s[i]).1)
    &&& forall|k: int|
        0 <= k <= s.len() ==> all_fit(w, #[trigger] merged_to(single, s, k))
}

pub open spec fn all_fit(w: Scale, s: Seq<(u32, Scalar)>) -> bool {
    forall|i: int| 0 <= i < s.len() ==> (w.fits)((#[trigger] s[i]).1)
}

/// Merging neighbours of one column keeps what each column comes to.
pub proof fn merging_keeps_sums<B: Arithmetic>(
    w: Scale,
    single: B,
    s: Seq<(u32, Scalar)>,
    k: int,
    j: u32,
)
    requires
        w.measures(single),
        merges_within(w, single, s),
        0 <= k <= s.len(),
    ensures
        needs(w, merged_to(single, s, k), j) == needs(w, s.take(k), j),
    decreases k,
{
    if k > 0 {
        merging_keeps_sums(w, single, s, k - 1, j);
        assert(s.take(k).drop_last() =~= s.take(k - 1));
        let rest = merged_to(single, s, k - 1);
        let now = merged_to(single, s, k);
        assert(all_fit(w, rest) && all_fit(w, now));
        assert((w.fits)(s[k - 1].1));
        if rest.len() > 0 && rest.last().0 == s[k - 1].0 {
            assert(rest[rest.len() - 1] == rest.last());
            assert(now[now.len() - 1] == now.last());
            assert(now.drop_last() =~= rest.drop_last());
        } else {
            assert(now.drop_last() =~= rest);
        }
    } else {
        assert(s.take(0).len() == 0);
    }
}

/// The coefficients of a row: a use by another material's recipe is a negative
/// share of what an operation of the row's recipe makes, and a use by its own recipe
/// is taken off the one on the diagonal.
pub proof fn rows_share<B: Arithmetic>(
    single: B,
    uses: Seq<(u32, Scalar)>,
    out: Scalar,
    i: int,
    k: int,
    at: int,
)
    requires
        0 <= at < k <= uses.len(),
        uses[at].0 != i,
    ensures
        coeffs_to(single, uses, out, i, k).0.contains(
            (
                uses[at].0,
                single.over_spec(single.minus_spec(single.ratio_spec(0, 1), uses[at].1), out),
            ),
        ),
    decreases k,
{
    let e = (
        uses[at].0,
        single.over_spec(single.minus_spec(single.ratio_spec(0, 1), uses[at].1), out),
    );
    let rest = coeffs_to(single, uses, out, i, k - 1).0;
    let now = coeffs_to(single, uses, out, i, k).0;
    if at < k - 1 {
        rows_share(single, uses, out, i, k - 1, at);
        let x = choose|x: int| 0 <= x < rest.len() && rest[x] == e;
        assert(now[x] == e);
    } else {
        assert(now[rest.len() as int] == e);
    }
}

/// Where no use is by the recipe of the row itself, the diagonal is one, and the row
/// has an entry for each use and the diagonal.
pub proof fn plain_rows<B: Arithmetic>(
    single: B,
    uses: Seq<(u32, Scalar)>,
    out: Scalar,
    i: int,
    k: int,
)
    requires
        0 <= k <= uses.len(),
        forall|a: int| 0 <= a < uses.len() ==> (#[trigger] uses[a]).0 != i,
    ensures
        coeffs_to(single, uses, out, i, k).1 == single.ratio_spec(1, 1),
        coeffs_to(single, uses, out, i, k).0.len() == k,
    decreases k,
{
    if k > 0 {
        plain_rows(single, uses, out, i, k - 1);
        assert(uses[k - 1].0 != i);
    }
}

/// The row of a material that no recipe is run for says that nothing is run for it.
pub proof fn idle_rows<B: Arithmetic>(
    single: B,
    sg: SubgraphData,
    cand: CandidateTable,
    demand: Seq<Scalar>,
    i: int,
)
    requires
        !single.lt_spec(single.ratio_spec(0, 1), cand.out_qty@[i]),
    ensures
        row(single, sg, cand, i) == seq![(i as u32, single.ratio_spec(1, 1))],
        right_side(single, cand, demand, i) == single.ratio_spec(0, 1),
{
}

/// The right side of a row is how often its recipe has to run for the demand alone.
pub proof fn sides_meet_demand<B: Arithmetic>(
    w: Scale,
    single: B,
    cand: CandidateTable,
    demand: Seq<Scalar>,
    i: int,
)
    requires
        w.measures(single),
        w.amount(demand[i]),
        w.amount(cand.out_qty@[i]),
        (w.of)(cand.out_qty@[i]) > 0,
        (w.fits)(single.over_spec(demand[i], cand.out_qty@[i])),
    ensures
        floors(
            (w.of)(right_side(single, cand, demand, i)),
            (w.of)(demand[i]) * w.unit,
            (w.of)(cand.out_qty@[i]),
        ),
{
    w.whole(single, 0);
}

impl<'a, A: Arithmetic, B: Arithmetic> Cut<'a, A, B> {
    proof fn slot_use_is_listed(self, s: Sub, at: usize, r: int, slot: int, q: u64, m: MaterialId, k: int) -> (x: int)
        requires
            0 <= slot < k,
            self.taken(s.recipes[r].rid, slot) == Some((m, q)),
            crate::list::place(s.materials, m) == Some(at),
        ensures
            0 <= x < self.slot_uses_to(s, at as int, r, k).len(),
            self.slot_uses_to(s, at as int, r, k)[x] == (r as u32, self.single.ratio_spec(q, 1)),
        decreases k,
    {
        if slot < k - 1 {
            self.slot_use_is_listed(s, at, r, slot, q, m, k - 1)
        } else {
            self.slot_uses_to(s, at as int, r, k - 1).len() as int
        }
    }

    /// Every slot of every recipe of a part is listed among the uses of the material
    /// that fills it, with its quantity.
    pub proof fn uses_are_listed(
        self,
        s: Sub,
        at: usize,
        r: int,
        slot: int,
        q: u64,
        m: MaterialId,
        n: int,
    )
        requires
            0 <= r < n <= s.recipes.len(),
            0 <= slot < self.g.recipes@[s.recipes[r].rid as int].inputs@.len(),
            self.taken(s.recipes[r].rid, slot) == Some((m, q)),
            crate::list::place(s.materials, m) == Some(at),
        ensures
            self.uses_to(s, at as int, n).contains((r as u32, self.single.ratio_spec(q, 1))),
        decreases n,
    {
        let e = (r as u32, self.single.ratio_spec(q, 1));
        let rest = self.uses_to(s, at as int, n - 1);
        let now = self.uses_to(s, at as int, n);
        if r < n - 1 {
            self.uses_are_listed(s, at, r, slot, q, m, n - 1);
            let x = choose|x: int| 0 <= x < rest.len() && rest[x] == e;
            assert(now[x] == e);
        } else {
            let k = self.g.recipes@[s.recipes[r].rid as int].inputs@.len() as int;
            let x = self.slot_use_is_listed(s, at, r, slot, q, m, k);
            assert(now[rest.len() + x] == e);
        }
    }

    /// There are as many uses of a material as slots that it fills.
    pub proof fn uses_are_counted(self, s: Sub, i: int, r: int, k: int)
        requires
            0 <= k,
        ensures
            self.slot_uses_to(s, i, r, k).len() == total(k as nat, self.fills(s, i, r)),
        decreases k,
    {
        if k > 0 {
            self.uses_are_counted(s, i, r, k - 1);
            total_step(k as nat, self.fills(s, i, r));
        }
    }

    /// One for each slot of the recipe at `r` that the material at `i` fills.
    pub open spec fn fills(self, s: Sub, i: int, r: int) -> spec_fn(int) -> int {
        |k: int|
            match self.taken(s.recipes[r].rid, k) {
                Some((m, _)) => match crate::list::place(s.materials, m) {
                    Some(at) => if at == i {
                        1
                    } else {
                        0
                    },
                    None => 0,
                },
                None => 0,
            }
    }

    /// An item weighs one, a fluid a thousandth.
    pub proof fn fluids_weigh_less(self, w: Scale, m: MaterialId)
        requires
            w.measures(*self.single),
            (w.fits)(self.weight(m)),
        ensures
            self.g.materials@[m as int].key.kind is Fluid ==> floors(
                (w.of)(self.weight(m)),
                w.unit,
                1000,
            ),
            !(self.g.materials@[m as int].key.kind is Fluid) ==> (w.of)(self.weight(m)) == w.unit,
    {
        if !(self.g.materials@[m as int].key.kind is Fluid) {
            w.whole(*self.single, 1);
        }
    }
}

/// What a candidate is judged by, at the material at `i`: what of the demand and of
/// the uses is not made, by the weight of the material, and a penalty for its
/// operations.
pub open spec fn judged_at<B: Arithmetic>(
    w: Scale,
    single: B,
    sys: FlowSystem,
    x: Seq<Scalar>,
    weights: Seq<Scalar>,
    ops_penalty: Scalar,
    i: int,
    score: int,
) -> bool {
    let asked = (w.of)(sys.demand@[i]) + (w.of)(use_of(single, sys, x, i));
    exists|made: int, bad: int, ops: int|
        #![trigger floors(made, (w.of)(x[i]) * (w.of)(sys.out_qty@[i]), w.unit), floors(bad, missing(asked, made) * (w.of)(weights[i]), w.unit), floors(ops, (w.of)(ops_penalty) * (w.of)(x[i]), w.unit)]
        floors(made, (w.of)(x[i]) * (w.of)(sys.out_qty@[i]), w.unit) && floors(
            bad,
            missing(asked, made) * (w.of)(weights[i]),
            w.unit,
        ) && floors(ops, (w.of)(ops_penalty) * (w.of)(x[i]), w.unit) && score == bad + ops
}

/// What is asked for and not made.
pub open spec fn missing(asked: int, made: int) -> int {
    if asked > made {
        asked - made
    } else {
        0
    }
}

/// The numbers of a judgement are within range.
pub open spec fn judging_fits<B: Arithmetic>(
    w: Scale,
    single: B,
    sys: FlowSystem,
    x: Seq<Scalar>,
    weights: Seq<Scalar>,
    ops_penalty: Scalar,
    i: int,
) -> bool {
    let zero = single.ratio_spec(0, 1);
    let made = single.times_spec(x[i], sys.out_qty@[i]);
    let asked = single.plus_spec(sys.demand@[i], use_of(single, sys, x, i));
    let short = single.minus_spec(asked, made);
    let bad = single.most_spec(short, zero);
    let a = single.times_spec(bad, weights[i]);
    let b = single.times_spec(ops_penalty, x[i]);
    &&& w.amount(x[i]) && w.amount(sys.out_qty@[i]) && w.amount(weights[i]) && w.amount(ops_penalty)
    &&& (w.fits)(sys.demand@[i]) && (w.fits)(use_of(single, sys, x, i))
    &&& (w.fits)(made) && (w.fits)(asked) && (w.fits)(short)
    &&& (w.fits)(bad) && (w.of)(bad) == if (w.of)(short) > 0 {
        (w.of)(short)
    } else {
        0
    }
    &&& (w.fits)(a) && (w.fits)(b) && (w.fits)(single.plus_spec(a, b))
    &&& (w.fits)(score_to(single, sys, x, weights, ops_penalty, i)) && (w.fits)(
        score_to(single, sys, x, weights, ops_penalty, i + 1),
    )
}

/// The score of a candidate grows with each material by what it is judged by there.
pub proof fn scores_judge<B: Arithmetic>(
    w: Scale,
    single: B,
    sys: FlowSystem,
    x: Seq<Scalar>,
    weights: Seq<Scalar>,
    ops_penalty: Scalar,
    i: int,
)
    requires
        w.measures(single),
        0 <= i,
        judging_fits(w, single, sys, x, weights, ops_penalty, i),
    ensures
        judged_at(
            w,
            single,
            sys,
            x,
            weights,
            ops_penalty,
            i,
            (w.of)(score_to(single, sys, x, weights, ops_penalty, i + 1)) - (w.of)(
                score_to(single, sys, x, weights, ops_penalty, i),
            ),
        ),
        score_to(single, sys, x, weights, ops_penalty, 0) == single.ratio_spec(0, 1),
{
    let zero = single.ratio_spec(0, 1);
    w.whole(single, 0);
    let made = single.times_spec(x[i], sys.out_qty@[i]);
    let asked = single.plus_spec(sys.demand@[i], use_of(single, sys, x, i));
    let bad = single.most_spec(single.minus_spec(asked, made), zero);
    let a = single.times_spec(bad, weights[i]);
    let b = single.times_spec(ops_penalty, x[i]);
    let all = (w.of)(sys.demand@[i]) + (w.of)(use_of(single, sys, x, i));
    assert((w.of)(bad) == missing(all, (w.of)(made)));
    assert(floors((w.of)(made), (w.of)(x[i]) * (w.of)(sys.out_qty@[i]), w.unit));
    assert(floors((w.of)(a), missing(all, (w.of)(made)) * (w.of)(weights[i]), w.unit));
    assert(floors((w.of)(b), (w.of)(ops_penalty) * (w.of)(x[i]), w.unit));
}

/// A solution is at rest: where a row already comes to its right side, relaxing
/// changes nothing there.
pub proof fn solutions_rest<B: Arithmetic>(
    w: Scale,
    single: B,
    sys: FlowSystem,
    omega: Scalar,
    x: Seq<Scalar>,
    i: int,
)
    requires
        w.measures(single),
        0 <= i < x.len(),
        (w.fits)(x[i]),
        w.amount(omega),
        (w.fits)(sys.rhs@[i]),
        (w.fits)(product(single, sys, x, i)),
        (w.of)(product(single, sys, x, i)) == (w.of)(sys.rhs@[i]),
        ({
            let d = single.minus_spec(sys.rhs@[i], product(single, sys, x, i));
            (w.fits)(d) && (w.fits)(single.times_spec(omega, d)) && (w.fits)(
                relaxed(single, sys, omega, x)[i],
            )
        }),
    ensures
        (w.of)(relaxed(single, sys, omega, x)[i]) == (w.of)(x[i]),
{
    let d = single.minus_spec(sys.rhs@[i], product(single, sys, x, i));
    let e = single.times_spec(omega, d);
    let o = (w.of)(omega);
    let y = (w.of)(e);
    let u = w.unit;
    assert(o * 0 == 0) by (nonlinear_arith);
    assert(floors(y, 0, u));
    assert(y == 0) by (nonlinear_arith)
        requires
            y * u <= 0,
            0 < y * u + u,
            u > 0,
    ;
}

/// Where a row comes to less than its right side, relaxing gives more, by the factor
/// times what is lacking.
pub proof fn relaxing_makes_up<B: Arithmetic>(
    w: Scale,
    single: B,
    sys: FlowSystem,
    omega: Scalar,
    x: Seq<Scalar>,
    i: int,
)
    requires
        w.measures(single),
        0 <= i < x.len(),
        (w.fits)(x[i]),
        w.amount(omega),
        (w.fits)(sys.rhs@[i]),
        (w.fits)(product(single, sys, x, i)),
        (w.of)(product(single, sys, x, i)) <= (w.of)(sys.rhs@[i]),
        ({
            let d = single.minus_spec(sys.rhs@[i], product(single, sys, x, i));
            (w.fits)(d) && (w.fits)(single.times_spec(omega, d)) && (w.fits)(
                relaxed(single, sys, omega, x)[i],
            )
        }),
    ensures
        floors(
            (w.of)(relaxed(single, sys, omega, x)[i]) - (w.of)(x[i]),
            (w.of)(omega) * ((w.of)(sys.rhs@[i]) - (w.of)(product(single, sys, x, i))),
            w.unit,
        ),
{
}

/// A table that judges an assignment gives every material that it names what an
/// operation of its recipe makes of it, where no later entry names the material.
pub proof fn tables_hold_outputs<B: Arithmetic>(
    single: B,
    sg: SubgraphData,
    entries: Seq<(MaterialId, RecipeId)>,
    k: int,
    e: int,
)
    requires
        sg.wf(),
        0 <= e < k <= entries.len(),
        table_to(single, sg, entries, k) is Some,
        forall|a: int, b: int|
            0 <= a < b < entries.len() ==> (#[trigger] entries[a]).0 < (#[trigger] entries[b]).0,
        forall|a: int, b: int|
            0 <= a < b < entries.len() ==> (#[trigger] entries[a]).1 != (#[trigger] entries[b]).1,
    ensures
        ({
            let t = table_to(single, sg, entries, k)->0;
            let mi = crate::list::place(sg.materials@, entries[e].0);
            let ri = crate::list::place(sg.recipes@, entries[e].1);
            &&& t.owner.len() == sg.recipes@.len() && t.out_qty.len() == sg.materials@.len()
            &&& mi is Some && ri is Some
            &&& t.owner[ri->0 as int] == mi->0
            &&& crate::gpu::subgraph::output_at(
                sg.recipe_outputs@[ri->0 as int]@,
                mi->0,
                sg.recipe_outputs@[ri->0 as int]@.len() as int,
            ) == Some(t.out_qty[mi->0 as int])
        }),
    decreases k,
{
    let before = table_to(single, sg, entries, k - 1);
    assert(before is Some);
    table_sizes(single, sg, entries, k - 1);
    crate::list::place_below(sg.materials@, entries[k - 1].0);
    crate::list::place_below(sg.recipes@, entries[k - 1].1);
    crate::list::place_below(sg.materials@, entries[e].0);
    crate::list::place_below(sg.recipes@, entries[e].1);
    if e < k - 1 {
        tables_hold_outputs(single, sg, entries, k - 1, e);
        assert(entries[e].0 < entries[k - 1].0 && entries[e].1 != entries[k - 1].1);
    }
}

proof fn table_sizes<B: Arithmetic>(
    single: B,
    sg: SubgraphData,
    entries: Seq<(MaterialId, RecipeId)>,
    k: int,
)
    requires
        sg.wf(),
    ensures
        table_to(single, sg, entries, k) matches Some(t) ==> t.owner.len() == sg.recipes@.len()
            && t.out_qty.len() == sg.materials@.len(),
    decreases k,
{
    if k > 0 {
        table_sizes(single, sg, entries, k - 1);
        crate::list::place_below(sg.materials@, entries[k - 1].0);
        crate::list::place_below(sg.recipes@, entries[k - 1].1);
    }
}

/// The row of a material that a recipe is run for holds the shares of its uses and
/// the diagonal, where the uses are those of recipes that are run, added up by
/// material.
pub proof fn rows_hold_shares<B: Arithmetic>(
    single: B,
    sg: SubgraphData,
    cand: CandidateTable,
    i: int,
    at: int,
)
    requires
        single.lt_spec(single.ratio_spec(0, 1), cand.out_qty@[i]),
        0 <= at < row_uses(single, sg, cand, i).len(),
        row_uses(single, sg, cand, i)[at].0 != i,
    ensures
        row(single, sg, cand, i).contains(
            (
                row_uses(single, sg, cand, i)[at].0,
                single.over_spec(
                    single.minus_spec(
                        single.ratio_spec(0, 1),
                        row_uses(single, sg, cand, i)[at].1,
                    ),
                    cand.out_qty@[i],
                ),
            ),
        ),
        row(single, sg, cand, i).last().0 == i as u32,
{
    let uses = row_uses(single, sg, cand, i);
    let out = cand.out_qty@[i];
    rows_share(single, uses, out, i, uses.len() as int, at);
    let list = coeffs_to(single, uses, out, i, uses.len() as int).0;
    let e = (uses[at].0, single.over_spec(single.minus_spec(single.ratio_spec(0, 1), uses[at].1), out));
    let k = choose|k: int| 0 <= k < list.len() && list[k] == e;
    assert(row(single, sg, cand, i)[k] == e);
}

/// The uses of a row come to the same, material by material, as the uses of recipes
/// that are run.
pub proof fn row_uses_add_up<B: Arithmetic>(
    w: Scale,
    single: B,
    sg: SubgraphData,
    cand: CandidateTable,
    i: int,
    j: u32,
)
    requires
        w.measures(single),
        sg.wf(),
        0 <= i < sg.materials@.len(),
        j != u32::MAX,
        ({
            let owned = owned_to(
                sg,
                cand,
                sg.cons_offsets@[i] as int,
                sg.cons_offsets@[i + 1] as int,
            );
            merges_within(w, single, crate::order::sorted(owned, column_order(owned)))
        }),
    ensures
        ({
            let from = sg.cons_offsets@[i] as int;
            let to = sg.cons_offsets@[i + 1] as int;
            needs(w, row_uses(single, sg, cand, i), j) == total(
                (to - from) as nat,
                used_by(w, sg, cand, from, j),
            )
        }),
{
    let from = sg.cons_offsets@[i] as int;
    let to = sg.cons_offsets@[i + 1] as int;
    let owned = owned_to(sg, cand, from, to);
    let before = column_order(owned);
    let sorted = crate::order::sorted(owned, before);
    let n = owned.len() as int;
    uses_are_owned(w, sg, cand, i, j);
    owned_few(sg, cand, from, to);
    assert(sg.cons_offsets@[i] <= sg.cons_offsets@[i + 1]);
    assert(crate::order::orders(before, n));
    assert(n <= usize::MAX) by {
        assert(sg.cons_offsets@[i + 1] <= usize::MAX);
    }
    let f = |e: (u32, Scalar)|
        if e.0 == j {
            (w.of)(e.1)
        } else {
            0
        };
    crate::balance::weigh_sorted(owned, before, f);
    needs_weigh(w, owned, j);
    needs_weigh(w, sorted, j);
    merging_keeps_sums(w, single, sorted, sorted.len() as int, j);
    assert(sorted.take(sorted.len() as int) =~= sorted);
}

proof fn needs_weigh(w: Scale, list: Seq<(u32, Scalar)>, j: u32)
    ensures
        needs(w, list, j) == crate::balance::weigh(
            list,
            |e: (u32, Scalar)|
                if e.0 == j {
                    (w.of)(e.1)
                } else {
                    0
                },
        ),
    decreases list.len(),
{
    if list.len() > 0 {
        needs_weigh(w, list.drop_last(), j);
    }
}

proof fn owned_few(sg: SubgraphData, cand: CandidateTable, from: int, to: int)
    requires
        from <= to,
    ensures
        owned_to(sg, cand, from, to).len() <= to - from,
    decreases to - from,
{
    if from < to {
        owned_few(sg, cand, from, to - 1);
    }
}

} // verus!

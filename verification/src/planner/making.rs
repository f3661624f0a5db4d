//! What an expansion does for a demand.
use vstd::prelude::*;

use crate::balance::Measure;
use crate::graph::KnowledgeGraph;
use crate::model::{MaterialId, RecipeId};
use crate::planner::neighbours::{made_at, ranks};
use crate::planner::score::score_of;
use crate::planner::tree::{cost_to, eps, positive_to, sum_to, Expanded, Expansion, Tree};
use crate::program::{total, total_step};
use crate::scalar::{Arithmetic, Scalar};
use crate::scale::{floors, Scale};

verus! {

impl<'a, A: Arithmetic> Expansion<'a, A> {
    /// The operations that are run for a demand make just that much, on the average,
    /// up to the rounding of a part of an operation.
    pub proof fn operations_make_the_demand(
        self,
        w: Scale,
        m: MaterialId,
        rid: RecipeId,
        q: u64,
        qty: Scalar,
    )
        requires
            w.measures(*self.ar),
            w.amount(qty),
            q > 0,
            (w.fits)(self.ar.ratio_spec(q, 1)),
            ({
                let chance = self.g.output_chance_spec(*self.ar, rid, m);
                let each = self.ar.times_spec(self.ar.ratio_spec(q, 1), chance);
                w.amount(chance) && (w.of)(chance) > 0 && (w.fits)(each) && (w.fits)(
                    self.ar.over_spec(qty, each),
                )
            }),
        ensures
            floors(
                (w.of)(self.ops_for(m, rid, q, qty)),
                (w.of)(qty) * w.unit,
                q * (w.of)(self.g.output_chance_spec(*self.ar, rid, m)),
            ),
            w.amount(self.ops_for(m, rid, q, qty)),
    {
        let chance = self.g.output_chance_spec(*self.ar, rid, m);
        let one = self.ar.ratio_spec(q, 1);
        let each = self.ar.times_spec(one, chance);
        let c = (w.of)(chance);
        let x = (w.of)(each);
        let u = w.unit;
        w.whole(*self.ar, q);
        assert(q * u >= 0) by (nonlinear_arith)
            requires
                q >= 0,
                u > 0,
        ;
        assert(x * u <= (q * u) * c < x * u + u);
        assert(x == q * c) by (nonlinear_arith)
            requires
                x * u <= (q * u) * c < x * u + u,
                u > 0,
        ;
        assert(q * c > 0) by (nonlinear_arith)
            requires
                q > 0,
                c > 0,
        ;
    }

    /// The recipe that is run for a material where none was chosen is the best one
    /// that the costs know, if its tier is allowed.
    pub proof fn best_is_run(self, m: MaterialId, best: RecipeId)
        requires
            self.an.cost.best_recipe@[m as int] == Some(best),
            self.req.max_tier matches Some(limit) ==> (self.g.recipes@[best as int].gt matches Some(
                gt,
            ) ==> (gt.tier_index matches Some(t) ==> t <= limit)),
        ensures
            self.pick(m) == Some(best),
    {
    }

    /// What the world gives is not made: what has a cost without a recipe is taken
    /// from outside.
    pub proof fn world_is_taken(self, m: MaterialId)
        requires
            self.an.cost.best_recipe@[m as int] is None,
            self.an.cost.vectors@[m as int].finite_spec(*self.ar),
        ensures
            self.pick(m) is None,
    {
    }

    /// Where the best recipe is of too high a tier, or there is none for what the
    /// world does not give, no allowed recipe within reach makes one cheaper than the
    /// recipe that is run; and one is run if there is any.
    pub proof fn cheapest_is_run(self, m: MaterialId, x: RecipeId, q: u64)
        requires
            self.ok(),
            ranks(*self.ar),
            m < self.g.m_count(),
            self.can_run(m, x, q),
            !self.of_the_world(m),
            self.an.cost.best_recipe@[m as int] matches Some(best) ==> self.above(best),
        ensures
            self.pick(m) matches Some(r) && self.runs_no_dearer(
                m,
                r,
                made_at(*self.ar, *self.g, *self.an, m, x, q),
            ),
    {
        let n = self.g.producers@[m as int]@.len() as int;
        let p = |r: int| self.g.produces(r, m as int as u32);
        assert(crate::graph::lists(self.g.producers@[m as int]@, self.g.r_count(), p));
        assert(p(x as int));
        assert(self.g.producers@[m as int]@.contains(x as int as u32));
        let k = choose|k: int| 0 <= k < n && self.g.producers@[m as int]@[k] == x;
        self.cheapest_so_far(m, x, q, k, n);
        let (b, r) = self.cheapest_to(m, n)->0;
        if let Some(best) = self.an.cost.best_recipe@[m as int] {
            assert(self.above(best));
            assert(!crate::util::tier_allowed_spec(*self.g, best, self.req.max_tier));
        }
        assert(self.pick(m) == Some(r));
        assert(self.runs_at(m, r, b));
        assert(self.runs_no_dearer(m, r, made_at(*self.ar, *self.g, *self.an, m, x, q)));
    }

    /// The recipe can be run for `m`, of which an operation makes `q`.
    pub open spec fn can_run(self, m: MaterialId, x: RecipeId, q: u64) -> bool {
        let r = self.g.recipes@[x as int];
        &&& x < self.g.r_count()
        &&& self.g.produces(x as int, m)
        &&& crate::util::qty_in(r.outputs@, m) == Some(q)
        &&& self.g.plannable@[x as int]
        &&& !self.above(x)
        &&& r.inputs@.len() > 0
        &&& self.ar.finite_spec(
            crate::util::recipe_cost_spec(
                *self.ar,
                *self.g,
                self.an.cost.unit_cost@,
                Some(self.an.cost.cyclic@),
                r,
            ),
        )
        &&& !self.ar.le_spec(
            crate::util::mat_norm_spec(*self.ar, *self.g, m, q),
            self.ar.ratio_spec(0, 1),
        )
    }

    /// The recipe can be run for `m`, and makes one at the price.
    pub open spec fn runs_at(self, m: MaterialId, x: RecipeId, price: Scalar) -> bool {
        exists|q: u64| #[trigger]
            self.can_run(m, x, q) && price == made_at(*self.ar, *self.g, *self.an, m, x, q)
    }

    /// The recipe can be run for `m`, and makes one at no more than the price.
    pub open spec fn runs_no_dearer(self, m: MaterialId, x: RecipeId, price: Scalar) -> bool {
        exists|b: Scalar| #[trigger] self.runs_at(m, x, b) && !self.ar.lt_spec(price, b)
    }

    /// The recipe is of a higher tier than is allowed.
    pub open spec fn above(self, x: RecipeId) -> bool {
        self.req.max_tier matches Some(limit) && (self.g.recipes@[x as int].gt matches Some(gt) && (
        gt.tier_index matches Some(t) && t > limit))
    }

    proof fn cheapest_so_far(self, m: MaterialId, x: RecipeId, q: u64, k: int, i: int)
        requires
            self.ok(),
            ranks(*self.ar),
            m < self.g.m_count(),
            self.can_run(m, x, q),
            0 <= k < i <= self.g.producers@[m as int]@.len(),
            self.g.producers@[m as int]@[k] == x,
        ensures
            self.cheapest_to(m, i) matches Some((b, r)) && !self.ar.lt_spec(
                made_at(*self.ar, *self.g, *self.an, m, x, q),
                b,
            ) && self.runs_at(m, r, b),
        decreases i,
    {
        self.ar.total_before_orders();
        self.best_is_priced(m, i);
        assert(self.unit_price(m, x) == Some(made_at(*self.ar, *self.g, *self.an, m, x, q)));
        if k < i - 1 {
            self.cheapest_so_far(m, x, q, k, i - 1);
        }
    }

    proof fn best_is_priced(self, m: MaterialId, i: int)
        requires
            self.ok(),
            m < self.g.m_count(),
            0 <= i <= self.g.producers@[m as int]@.len(),
        ensures
            self.cheapest_to(m, i) matches Some((b, r)) ==> self.runs_at(m, r, b),
        decreases i,
    {
        if i > 0 {
            self.best_is_priced(m, i - 1);
            let rid = self.g.producers@[m as int]@[i - 1];
            let p = |r: int| self.g.produces(r, m as int as u32);
            assert(crate::graph::lists(self.g.producers@[m as int]@, self.g.r_count(), p));
            assert(p(rid as int));
            if let Some(per) = self.unit_price(m, rid) {
                let z = crate::util::qty_in(self.g.recipes@[rid as int].outputs@, m)->0;
                assert(self.can_run(m, rid, z));
                assert(per == made_at(*self.ar, *self.g, *self.an, m, rid, z));
                assert(self.runs_at(m, rid, per));
            }
        }
    }

    /// A material that nothing makes is taken from outside, as much as is wanted, and
    /// nothing is run for it.
    pub proof fn sources_are_taken(self, t: Tree, m: MaterialId, qty: Scalar)
        requires
            self.g.source_spec(m),
            m < t.raw.len(),
            m < t.visits.len(),
        ensures
            ({
                let u = self.serve(t, m, qty);
                &&& u.ops == t.ops
                &&& u.demand == t.demand
                &&& u.byproduct == t.byproduct
                &&& u.raw == t.raw.update(
                    m as int,
                    self.ar.plus_spec(t.raw[m as int], qty),
                )
            }),
    {
    }
}

/// What comes out besides settles what comes from outside first, what is wanted
/// next, and only the rest is left over. No other material is touched.
pub proof fn besides_settle<A: Arithmetic>(ar: A, w: Measure, t: Tree, m: MaterialId, left: Scalar)
    requires
        w.measures(ar),
        m < t.raw.len(),
        t.demand.len() == t.raw.len(),
        t.byproduct.len() == t.raw.len(),
        (w.fits)(left),
        (w.fits)(t.raw[m as int]),
        (w.fits)(t.demand[m as int]),
        (w.fits)(t.byproduct[m as int]),
        (w.fits)(t.give(ar, m, left).byproduct[m as int]),
    ensures
        ({
            let i = m as int;
            let u = t.give(ar, m, left);
            let (l, r, d) = ((w.of)(left), (w.of)(t.raw[i]), (w.of)(t.demand[i]));
            &&& (w.of)(u.raw[i]) == if l < r { r - l } else { 0 }
            &&& (w.of)(u.demand[i]) == if l < r {
                d
            } else if l - r < d {
                d - (l - r)
            } else {
                0
            }
            &&& (w.of)(u.byproduct[i]) == (w.of)(t.byproduct[i]) + if l > r + d {
                l - r - d
            } else {
                0
            }
            &&& u.ops == t.ops
            &&& forall|j: int|
                0 <= j < t.raw.len() && j != i ==> #[trigger] u.raw[j] == t.raw[j] && u.demand[j]
                    == t.demand[j] && u.byproduct[j] == t.byproduct[j]
        }),
{
    let i = m as int;
    let used_raw = ar.least_spec(left, t.raw[i]);
    assert((w.fits)(used_raw));
    let left1 = if ar.lt_spec(eps(ar), t.raw[i]) {
        ar.minus_spec(left, used_raw)
    } else {
        left
    };
    assert((w.fits)(left1));
    let used = ar.least_spec(left1, t.demand[i]);
    assert((w.fits)(used));
}

/// What is wanted is added to the demand, and waits. What is nothing is not wanted.
pub proof fn wants_wait<A: Arithmetic>(ar: A, w: Measure, t: Tree, m: MaterialId, qty: Scalar)
    requires
        w.measures(ar),
        m < t.demand.len(),
        t.queued.len() == t.demand.len(),
        t.queued[m as int] ==> t.queue.contains(m),
        (w.fits)(qty),
        (w.fits)(t.demand[m as int]),
        (w.fits)(t.want(ar, m, qty).demand[m as int]),
    ensures
        ({
            let u = t.want(ar, m, qty);
            &&& (w.of)(u.demand[m as int]) == (w.of)(t.demand[m as int]) + (w.of)(qty)
            &&& (w.of)(qty) > 0 ==> u.queue.contains(m) && u.queued[m as int]
            &&& forall|j: int|
                0 <= j < t.demand.len() && j != m ==> #[trigger] u.demand[j] == t.demand[j]
            &&& u.raw == t.raw && u.byproduct == t.byproduct && u.ops == t.ops
        }),
{
    let u = t.want(ar, m, qty);
    if (w.of)(qty) > 0 && !t.queued[m as int] {
        assert(u.queue[t.queue.len() as int] == m);
    }
}

/// A list names each number that is more than nothing, with its place.
pub proof fn positive_is_listed<A: Arithmetic>(ar: A, w: Scale, v: Seq<Scalar>, n: int)
    requires
        w.measures(ar),
        0 <= n <= v.len() <= u32::MAX,
        forall|i: int| 0 <= i < v.len() ==> (w.fits)(#[trigger] v[i]),
    ensures
        ({
            let list = positive_to(ar, v, n);
            &&& list.len() <= n
            &&& forall|i: int|
                0 <= i < n && (w.of)(#[trigger] v[i]) > 0 ==> list.contains((i as u32, v[i]))
            &&& forall|k: int|
                0 <= k < list.len() ==> (#[trigger] list[k]).0 < n && list[k].1
                    == v[list[k].0 as int] && (w.of)(list[k].1) > 0
            &&& forall|a: int, b: int|
                0 <= a < b < list.len() ==> (#[trigger] list[a]).0 < (#[trigger] list[b]).0
        }),
    decreases n,
{
    if n > 0 {
        positive_is_listed(ar, w, v, n - 1);
        let rest = positive_to(ar, v, n - 1);
        let list = positive_to(ar, v, n);
        assert((w.fits)(v[n - 1]));
        assert forall|i: int| 0 <= i < n && (w.of)(#[trigger] v[i]) > 0 implies list.contains(
            (i as u32, v[i]),
        ) by {
            if i < n - 1 {
                assert(rest.contains((i as u32, v[i])));
                let k = choose|k: int| 0 <= k < rest.len() && rest[k] == (i as u32, v[i]);
                assert(list[k] == rest[k]);
            } else {
                assert(list[rest.len() as int] == (i as u32, v[i]));
            }
        }
    }
}

/// What an expansion runs together is the sum over its recipes.
pub proof fn operations_are_summed<A: Arithmetic>(ar: A, w: Scale, v: Seq<(u32, Scalar)>, n: int)
    requires
        w.measures(ar),
        0 <= n <= v.len(),
        forall|i: int| 0 <= i < v.len() ==> (w.fits)((#[trigger] v[i]).1),
        forall|i: int| 0 <= i <= v.len() ==> (w.fits)(#[trigger] sum_to(ar, v, i)),
    ensures
        (w.of)(sum_to(ar, v, n)) == total(n as nat, |i: int| (w.of)(v[i].1)),
    decreases n,
{
    let f = |i: int| (w.of)(v[i].1);
    if n == 0 {
        w.whole(ar, 0);
    } else {
        operations_are_summed(ar, w, v, n - 1);
        total_step(n as nat, f);
        assert((w.fits)(v[n - 1].1));
        assert((w.fits)(sum_to(ar, v, n - 1)) && (w.fits)(sum_to(ar, v, n)));
    }
}

/// What an expansion costs is the sum over its raw materials, an item counting as one
/// and a fluid as a thousandth.
pub proof fn raw_costs_are_summed<A: Arithmetic>(
    ar: A,
    w: Scale,
    g: KnowledgeGraph,
    raw: Seq<(MaterialId, Scalar)>,
    n: int,
    c: spec_fn(int) -> int,
)
    requires
        w.measures(ar),
        (w.fits)(ar.ratio_spec(1000, 1)),
        0 <= n <= raw.len(),
        forall|i: int|
            0 <= i < raw.len() ==> w.amount((#[trigger] raw[i]).1) && (w.fits)(
                crate::planner::tree::norm_rate_spec(
                    ar,
                    g.materials@[raw[i].0 as int].key.kind,
                    raw[i].1,
                ),
            ),
        forall|i: int| 0 <= i <= raw.len() ==> (w.fits)(#[trigger] cost_to(ar, g, raw, i)),
        forall|i: int|
            0 <= i < raw.len() ==> if g.materials@[raw[i].0 as int].key.kind is Fluid {
                floors(#[trigger] c(i), (w.of)(raw[i].1), 1000)
            } else {
                c(i) == (w.of)(raw[i].1)
            },
    ensures
        (w.of)(cost_to(ar, g, raw, n)) == total(n as nat, c),
    decreases n,
{
    if n == 0 {
        w.whole(ar, 0);
    } else {
        raw_costs_are_summed(ar, w, g, raw, n - 1, c);
        total_step(n as nat, c);
        assert(w.amount(raw[n - 1].1));
        assert((w.fits)(cost_to(ar, g, raw, n - 1)) && (w.fits)(cost_to(ar, g, raw, n)));
        let kind = g.materials@[raw[n - 1].0 as int].key.kind;
        let r = crate::planner::tree::norm_rate_spec(ar, kind, raw[n - 1].1);
        let y = c(n - 1);
        assert((w.of)(r) == y) by {
            if kind is Fluid {
                w.whole(ar, 1000);
                let x = (w.of)(r);
                let q = (w.of)(raw[n - 1].1);
                let u = w.unit;
                assert(x * (1000 * u) <= q * u < x * (1000 * u) + 1000 * u);
                assert(x * 1000 <= q && q < x * 1000 + 1000) by (nonlinear_arith)
                    requires
                        x * (1000 * u) <= q * u < x * (1000 * u) + 1000 * u,
                        u > 0,
                ;
            }
        }
    }
}

/// The score of an expansion is what it costs, and the penalty times its operations.
pub proof fn scores_count_operations<A: Arithmetic>(w: Scale, ar: A, penalty: Scalar, e: Expanded)
    requires
        w.measures(ar),
        w.amount(e.estimated_cost),
        w.amount(e.ops_total),
        w.amount(penalty),
        (w.fits)(ar.times_spec(penalty, e.ops_total)),
        (w.fits)(score_of(ar, penalty, e)),
    ensures
        floors(
            (w.of)(score_of(ar, penalty, e)) - (w.of)(e.estimated_cost),
            (w.of)(penalty) * (w.of)(e.ops_total),
            w.unit,
        ),
{
}

/// A better score is less, and what is less is better.
pub proof fn better_is_less<A: Arithmetic>(w: Scale, ar: A, a: Scalar, b: Scalar)
    requires
        w.measures(ar),
        (w.fits)(a),
        (w.fits)(b),
        (w.fits)(ar.minus_spec(b, eps(ar))),
    ensures
        crate::planner::score::better(ar, a, b) <==> (w.of)(a) < (w.of)(b),
{
}

} // verus!

//! What costs mean, in parts of a unit.
use vstd::prelude::*;

use crate::algo::cost::{
    beats, operation_cost, own_cost, penalty_spec, route_cost, slot_best, slots_cost, Allowed,
    CostVector, CostWeights, Picks, Prices, Route, Setting,
};
use crate::graph::KnowledgeGraph;
use crate::model::{MaterialId, RecipeId, RecipeNode};
use crate::planner::steps::times_whole;
use crate::program::{total, total_step};
use crate::scalar::{Arithmetic, Scalar};
use crate::scale::{floors, Scale};
use crate::util::{clearly_less_spec, mat_norm_spec, tie_tol_spec, tied_spec};

verus! {

/// A fraction in parts.
pub open spec fn is_part(w: Scale, a: Scalar, n: int, d: int) -> bool {
    floors((w.of)(a), n * w.unit, d)
}

/// The weights: by default a material counts for one, ten thousand EU for one, and
/// a minute of a machine for one. Where materials are to be saved, energy counts for a
/// hundredth of that and machines for a tenth; where energy is to be saved, materials
/// count for a twentieth and machines for a tenth; where time is to be saved,
/// materials count for a tenth and energy for a hundredth.
pub proof fn presets_weigh<A: Arithmetic>(w: Scale, ar: A, name: Seq<char>)
    requires
        w.measures(ar),
        CostWeights::preset_spec(ar, name) matches Some(p) ==> (w.fits)(p.material) && (w.fits)(
            p.eu,
        ) && (w.fits)(p.machine),
    ensures
        CostWeights::preset_spec(ar, name) matches Some(p) ==> {
            ||| name == "balanced"@ && is_part(w, p.material, 1, 1) && is_part(w, p.eu, 1, 10_000)
                && is_part(w, p.machine, 1, 1)
            ||| (name == "economy"@ || name == "material"@) && is_part(w, p.material, 1, 1)
                && is_part(w, p.eu, 1, 1_000_000) && is_part(w, p.machine, 1, 10)
            ||| (name == "power"@ || name == "eu"@) && is_part(w, p.material, 5, 100) && is_part(
                w,
                p.eu,
                1,
                10_000,
            ) && is_part(w, p.machine, 1, 10)
            ||| (name == "speed"@ || name == "time"@) && is_part(w, p.material, 1, 10) && is_part(
                w,
                p.eu,
                1,
                1_000_000,
            ) && is_part(w, p.machine, 1, 1)
        },
        CostWeights::preset_spec(ar, name) is None ==> name != "balanced"@ && name != "economy"@
            && name != "material"@ && name != "power"@ && name != "eu"@ && name != "speed"@ && name
            != "time"@,
{
}

/// The parts of a cost are within range and not negative.
pub open spec fn vector_fits(w: Scale, v: CostVector) -> bool {
    w.amount(v.material) && w.amount(v.eu) && w.amount(v.machine)
}

pub open spec fn weights_fit(w: Scale, k: CostWeights) -> bool {
    w.amount(k.material) && w.amount(k.eu) && w.amount(k.machine)
}

/// The numbers of a score are within range.
pub open spec fn score_fits<A: Arithmetic>(w: Scale, ar: A, k: CostWeights, v: CostVector) -> bool {
    let a = ar.times_spec(k.material, v.material);
    let b = ar.times_spec(k.eu, v.eu);
    let c = ar.times_spec(k.machine, v.machine);
    &&& vector_fits(w, v) && weights_fit(w, k)
    &&& (w.fits)(a) && (w.fits)(b) && (w.fits)(c)
    &&& (w.fits)(ar.plus_spec(a, b))
    &&& (w.fits)(v.score_spec(ar, k))
}

/// A score weighs material, energy and machine time, each by its weight.
pub open spec fn weighs(w: Scale, k: CostWeights, v: CostVector, score: int) -> bool {
    exists|a: int, b: int, c: int|
        #![trigger floors(a, (w.of)(k.material) * (w.of)(v.material), w.unit), floors(b, (w.of)(k.eu) * (w.of)(v.eu), w.unit), floors(c, (w.of)(k.machine) * (w.of)(v.machine), w.unit)]
        floors(a, (w.of)(k.material) * (w.of)(v.material), w.unit) && floors(
            b,
            (w.of)(k.eu) * (w.of)(v.eu),
            w.unit,
        ) && floors(c, (w.of)(k.machine) * (w.of)(v.machine), w.unit) && score == a + b + c
}

/// Scores weigh the parts of a cost.
pub proof fn scores_weigh<A: Arithmetic>(w: Scale, ar: A, k: CostWeights, v: CostVector)
    requires
        w.measures(ar),
        score_fits(w, ar, k, v),
    ensures
        weighs(w, k, v, (w.of)(v.score_spec(ar, k))),
        w.amount(v.score_spec(ar, k)),
{
    let a = ar.times_spec(k.material, v.material);
    let b = ar.times_spec(k.eu, v.eu);
    let c = ar.times_spec(k.machine, v.machine);
    assert(floors((w.of)(a), (w.of)(k.material) * (w.of)(v.material), w.unit));
    assert(floors((w.of)(b), (w.of)(k.eu) * (w.of)(v.eu), w.unit));
    assert(floors((w.of)(c), (w.of)(k.machine) * (w.of)(v.machine), w.unit));
}

/// An operation by itself costs the energy that it draws, and the minutes that a
/// machine works, of 1200 ticks each; it costs no material.
pub proof fn operations_by_themselves<A: Arithmetic>(w: Scale, ar: A, r: RecipeNode)
    requires
        w.measures(ar),
        (w.fits)(own_cost(ar, r).machine),
    ensures
        (w.of)(own_cost(ar, r).material) == 0,
        r.gt matches Some(gt) ==> is_part(w, own_cost(ar, r).machine, gt.duration_ticks as int, 1200)
            && (gt.energy_io == Some(crate::model::EnergyIo::In) ==> own_cost(ar, r).eu
            == gt.total_eu) && (gt.energy_io != Some(crate::model::EnergyIo::In) ==> (w.of)(
            own_cost(ar, r).eu,
        ) == 0),
        r.gt is None ==> (w.of)(own_cost(ar, r).eu) == 0 && (w.of)(own_cost(ar, r).machine) == 0,
{
    w.whole(ar, 0);
}

/// What is within range is before what is out of reach.
pub open spec fn near<A: Arithmetic>(w: Scale, ar: A) -> bool {
    forall|a: Scalar| #[trigger] (w.fits)(a) ==> ar.lt_spec(a, ar.infinity_spec())
}

/// Fixed-point numbers within range are before what is out of reach.
pub proof fn fixed_is_near()
    ensures
        near(crate::scale::fixed_scale(), crate::fixed::Fixed),
{
}

/// What a candidate costs: its quantity in comparable units times the cost of one.
pub open spec fn candidate<A: Arithmetic>(
    ar: A,
    g: KnowledgeGraph,
    costs: Seq<CostVector>,
    alt: (MaterialId, u64),
) -> CostVector {
    costs[alt.0 as int].scale_spec(ar, mat_norm_spec(ar, g, alt.0, alt.1))
}

/// A candidate that may be used and has a price.
pub open spec fn offers<A: Arithmetic>(
    ar: A,
    costs: Seq<CostVector>,
    u: Allowed,
    alt: (MaterialId, u64),
) -> bool {
    u.allows(alt.0) && costs[alt.0 as int].finite_spec(ar)
}

/// A slot costs what its cheapest candidate costs that may be used and has a price;
/// where there is none, the slot has no cost.
pub proof fn slots_cost_least<A: Arithmetic>(
    w: Scale,
    ar: A,
    g: KnowledgeGraph,
    costs: Seq<CostVector>,
    k: CostWeights,
    u: Allowed,
    alts: Seq<(MaterialId, u64)>,
    n: int,
)
    requires
        w.measures(ar),
        near(w, ar),
        0 <= n <= alts.len(),
        forall|a: int|
            0 <= a < alts.len() && offers(ar, costs, u, #[trigger] alts[a]) ==> (w.fits)(
                candidate(ar, g, costs, alts[a]).score_spec(ar, k),
            ),
    ensures
        ({
            let (best, score) = slot_best(ar, g, costs, k, u, alts, n);
            &&& best is None <==> forall|a: int|
                0 <= a < n ==> !offers(ar, costs, u, #[trigger] alts[a])
            &&& best matches Some(c) ==> {
                &&& score == c.score_spec(ar, k) && (w.fits)(score)
                &&& exists|a: int|
                    0 <= a < n && offers(ar, costs, u, #[trigger] alts[a]) && c == candidate(
                        ar,
                        g,
                        costs,
                        alts[a],
                    )
                &&& forall|a: int|
                    0 <= a < n && offers(ar, costs, u, #[trigger] alts[a]) ==> (w.of)(score) <= (
                    w.of)(candidate(ar, g, costs, alts[a]).score_spec(ar, k))
            }
            &&& best is None ==> score == ar.infinity_spec()
        }),
    decreases n,
{
    if n > 0 {
        slots_cost_least(w, ar, g, costs, k, u, alts, n - 1);
        let (best, score) = slot_best(ar, g, costs, k, u, alts, n - 1);
        let alt = alts[n - 1];
        let c = candidate(ar, g, costs, alts[n - 1]);
        if offers(ar, costs, u, alts[n - 1]) {
            assert((w.fits)(c.score_spec(ar, k)));
            if best is None {
                assert(ar.lt_spec(c.score_spec(ar, k), score));
            }
        }
    }
}

/// What the cheapest candidate of the slot `s` costs.
pub open spec fn slot_of<A: Arithmetic>(
    ar: A,
    g: KnowledgeGraph,
    costs: Seq<CostVector>,
    k: CostWeights,
    u: Allowed,
    r: RecipeNode,
    s: int,
) -> CostVector {
    slot_best(ar, g, costs, k, u, r.inputs@[s].alts@, r.inputs@[s].alts@.len() as int).0->0
}

/// An operation costs what it costs by itself, and what its slots cost, added up
/// part by part; it has no cost where a slot has none.
pub proof fn operations_add_slots<A: Arithmetic>(
    w: Scale,
    ar: A,
    g: KnowledgeGraph,
    costs: Seq<CostVector>,
    k: CostWeights,
    u: Allowed,
    r: RecipeNode,
    n: int,
)
    requires
        w.measures(ar),
        0 <= n <= r.inputs@.len(),
        forall|s: int|
            0 <= s <= n ==> (#[trigger] slots_cost(ar, g, costs, k, u, r, s) matches Some(c)
                ==> vector_fits(w, c)),
        forall|s: int|
            #![trigger r.inputs@[s]]
            0 <= s < n ==> vector_fits(w, slot_of(ar, g, costs, k, u, r, s)),
    ensures
        slots_cost(ar, g, costs, k, u, r, n) is Some <==> forall|s: int|
            0 <= s < n ==> slot_best(
                ar,
                g,
                costs,
                k,
                u,
                (#[trigger] r.inputs@[s]).alts@,
                r.inputs@[s].alts@.len() as int,
            ).0 is Some,
        slots_cost(ar, g, costs, k, u, r, n) matches Some(c) ==> {
            &&& (w.of)(c.material) == (w.of)(own_cost(ar, r).material) + total(
                n as nat,
                |s: int| (w.of)(slot_of(ar, g, costs, k, u, r, s).material),
            )
            &&& (w.of)(c.eu) == (w.of)(own_cost(ar, r).eu) + total(
                n as nat,
                |s: int| (w.of)(slot_of(ar, g, costs, k, u, r, s).eu),
            )
            &&& (w.of)(c.machine) == (w.of)(own_cost(ar, r).machine) + total(
                n as nat,
                |s: int| (w.of)(slot_of(ar, g, costs, k, u, r, s).machine),
            )
        },
    decreases n,
{
    if n > 0 {
        operations_add_slots(w, ar, g, costs, k, u, r, n - 1);
        total_step(n as nat, |s: int| (w.of)(slot_of(ar, g, costs, k, u, r, s).material));
        total_step(n as nat, |s: int| (w.of)(slot_of(ar, g, costs, k, u, r, s).eu));
        total_step(n as nat, |s: int| (w.of)(slot_of(ar, g, costs, k, u, r, s).machine));
        let before = slots_cost(ar, g, costs, k, u, r, n - 1);
        let now = slots_cost(ar, g, costs, k, u, r, n);
        let slot = r.inputs@[n - 1];
        if now is Some {
            assert(vector_fits(w, before->0) && vector_fits(w, now->0));
            assert(vector_fits(w, slot_of(ar, g, costs, k, u, r, n - 1)));
        }
    }
}

/// Taking apart what was made costs four times as much as it would otherwise.
pub proof fn recycling_is_dear<A: Arithmetic>(
    w: Scale,
    ar: A,
    g: KnowledgeGraph,
    costs: Seq<CostVector>,
    k: CostWeights,
    u: Allowed,
    rid: RecipeId,
)
    requires
        w.measures(ar),
        (w.fits)(penalty_spec(ar, g, rid)),
        slots_cost(
            ar,
            g,
            costs,
            k,
            u,
            g.recipes@[rid as int],
            g.recipes@[rid as int].inputs@.len() as int,
        ) matches Some(c) ==> vector_fits(w, c) && {
            let d = c.scale_spec(ar, penalty_spec(ar, g, rid));
            (w.fits)(d.material) && (w.fits)(d.eu) && (w.fits)(d.machine)
        },
    ensures
        ({
            let r = g.recipes@[rid as int];
            let by = if g.recycling_spec(rid) {
                4int
            } else {
                1
            };
            match (
                slots_cost(ar, g, costs, k, u, r, r.inputs@.len() as int),
                operation_cost(ar, g, costs, k, u, r, penalty_spec(ar, g, rid)),
            ) {
                (Some(c), Some(d)) => (w.of)(d.material) == by * (w.of)(c.material) && (w.of)(d.eu)
                    == by * (w.of)(c.eu) && (w.of)(d.machine) == by * (w.of)(c.machine),
                (a, b) => a is None && b is None,
            }
        }),
{
    let r = g.recipes@[rid as int];
    let n: u64 = if g.recycling_spec(rid) {
        4
    } else {
        1
    };
    if let Some(c) = slots_cost(ar, g, costs, k, u, r, r.inputs@.len() as int) {
        times_whole(w, ar, c.material, n);
        times_whole(w, ar, c.eu, n);
        times_whole(w, ar, c.machine, n);
    }
}

/// One of the product costs the operation's cost divided by the quantity: each part
/// times the inverse of the quantity.
pub proof fn products_share<A: Arithmetic>(w: Scale, ar: A, v: CostVector, q: Scalar)
    requires
        w.measures(ar),
        vector_fits(w, v),
        (w.fits)(q),
        (w.of)(q) > 0,
        ({
            let inverse = ar.over_spec(ar.ratio_spec(1, 1), q);
            let d = v.per_unit_spec(ar, q);
            (w.fits)(inverse) && (w.fits)(d.material) && (w.fits)(d.eu) && (w.fits)(d.machine)
        }),
    ensures
        exists|inverse: int| #[trigger]
            floors(inverse, w.unit * w.unit, (w.of)(q)) && {
                let d = v.per_unit_spec(ar, q);
                floors((w.of)(d.material), (w.of)(v.material) * inverse, w.unit) && floors(
                    (w.of)(d.eu),
                    (w.of)(v.eu) * inverse,
                    w.unit,
                ) && floors((w.of)(d.machine), (w.of)(v.machine) * inverse, w.unit)
            },
{
    w.whole(ar, 0);
    w.whole(ar, 1);
    let inverse = ar.over_spec(ar.ratio_spec(1, 1), q);
    assert(floors((w.of)(inverse), w.unit * w.unit, (w.of)(q)));
}

/// Two scores are within range, and compared up to `slack` parts.
pub open spec fn comparable<A: Arithmetic>(w: Scale, ar: A, a: Scalar, b: Scalar, slack: int) -> bool {
    let tol = tie_tol_spec(ar, a, b);
    &&& (w.fits)(a) && (w.fits)(b)
    &&& (w.fits)(ar.minus_spec(a, b)) && (w.fits)(ar.abs_spec(ar.minus_spec(a, b)))
    &&& w.amount(tol) && (w.of)(tol) <= slack
    &&& (w.fits)(ar.minus_spec(b, tol))
}

/// What is clearly less is less by more than the tolerance, and what ties is no
/// further off than the tolerance.
pub proof fn comparisons_mean<A: Arithmetic>(w: Scale, ar: A, a: Scalar, b: Scalar, slack: int)
    requires
        w.measures(ar),
        comparable(w, ar, a, b, slack),
    ensures
        clearly_less_spec(ar, a, b) ==> (w.of)(a) < (w.of)(b),
        !clearly_less_spec(ar, a, b) ==> (w.of)(b) <= (w.of)(a) + slack,
        tied_spec(ar, a, b) ==> -slack <= (w.of)(a) - (w.of)(b) <= slack,
{
    let tol = tie_tol_spec(ar, a, b);
    let d = ar.minus_spec(a, b);
    assert((w.of)(ar.minus_spec(b, tol)) == (w.of)(b) - (w.of)(tol));
    assert((w.of)(d) == (w.of)(a) - (w.of)(b));
    assert(ar.le_spec(ar.abs_spec(d), tol) <==> (w.of)(ar.abs_spec(d)) <= (w.of)(tol));
}

impl<'a, A: Arithmetic> Setting<'a, A> {
    /// What the producer `x` makes one of `m` at.
    pub open spec fn offer_of(self, costs: Seq<CostVector>, u: Allowed, m: MaterialId, x: RecipeId) -> Option<
        CostVector,
    > {
        route_cost(
            *self.ar,
            *self.g,
            costs,
            self.w,
            u,
            self.g.recipes@[x as int],
            m,
            penalty_spec(*self.ar, *self.g, x),
        )
    }

    /// A producer that can be planned with and takes something makes one at a price.
    pub open spec fn reaches(
        self,
        costs: Seq<CostVector>,
        u: Allowed,
        m: MaterialId,
        x: RecipeId,
        c: CostVector,
    ) -> bool {
        &&& self.g.plannable@[x as int]
        &&& self.g.recipes@[x as int].inputs@.len() > 0
        &&& self.offer_of(costs, u, m, x) == Some(c)
        &&& c.finite_spec(*self.ar)
    }

    /// The scores of the producers are compared up to `slack` parts.
    pub open spec fn offers_compare(
        self,
        w: Scale,
        costs: Seq<CostVector>,
        u: Allowed,
        m: MaterialId,
        slack: int,
    ) -> bool {
        forall|i: int, j: int, c: CostVector, d: CostVector|
            0 <= i < self.g.producers@[m as int]@.len() && 0 <= j < self.g.producers@[m as int]@.len()
                && #[trigger] self.reaches(costs, u, m, self.g.producers@[m as int]@[i], c)
                && #[trigger] self.reaches(costs, u, m, self.g.producers@[m as int]@[j], d)
                ==> comparable(
                w,
                *self.ar,
                c.score_spec(*self.ar, self.w),
                d.score_spec(*self.ar, self.w),
                slack,
            )
    }

    /// The route to a material is the best one: no producer makes one cheaper by more
    /// than the tolerance of a comparison, once for it and once for each after it.
    pub proof fn route_is_cheapest(
        self,
        w: Scale,
        costs: Seq<CostVector>,
        u: Allowed,
        m: MaterialId,
        slack: int,
        n: int,
        k: int,
        c: CostVector,
    )
        requires
            w.measures(*self.ar),
            slack >= 0,
            self.offers_compare(w, costs, u, m, slack),
            0 <= k < n <= self.g.producers@[m as int]@.len(),
            self.reaches(costs, u, m, self.g.producers@[m as int]@[k], c),
        ensures
            ({
                let best = self.best_route(costs, u, m, n);
                &&& best.recipe matches Some(x) && self.reaches(costs, u, m, x, best.cost)
                &&& (w.of)(best.cost.score_spec(*self.ar, self.w)) <= (w.of)(
                    c.score_spec(*self.ar, self.w),
                ) + slack * (n - k)
            }),
        decreases n,
    {
        self.ar.infinity_is_not_finite();
        let at = self.route_is_offered(costs, u, m, n - 1);
        let before = self.best_route(costs, u, m, n - 1);
        let rid = self.g.producers@[m as int]@[n - 1];
        assert(slack * (n - k) == slack * (n - 1 - k) + slack) by (nonlinear_arith);
        assert(slack * (n - 1 - k) >= 0) by (nonlinear_arith)
            requires
                slack >= 0,
                k < n,
        ;
        if k < n - 1 {
            self.route_is_cheapest(w, costs, u, m, slack, n - 1, k, c);
        }
        if let Some(d) = self.offer_of(costs, u, m, rid) {
            if self.reaches(costs, u, m, rid, d) && before.recipe is Some {
                assert(self.reaches(costs, u, m, self.g.producers@[m as int]@[at], before.cost));
                assert(self.reaches(costs, u, m, self.g.producers@[m as int]@[n - 1], d));
                comparisons_mean(
                    w,
                    *self.ar,
                    d.score_spec(*self.ar, self.w),
                    before.cost.score_spec(*self.ar, self.w),
                    slack,
                );
            }
        }
    }

    /// The route is one of those that are offered.
    proof fn route_is_offered(self, costs: Seq<CostVector>, u: Allowed, m: MaterialId, n: int) -> (at: int)
        requires
            0 <= n <= self.g.producers@[m as int]@.len(),
        ensures
            ({
                let best = self.best_route(costs, u, m, n);
                &&& best.recipe matches Some(x) ==> 0 <= at < n && self.g.producers@[m as int]@[at]
                    == x && self.reaches(costs, u, m, x, best.cost)
                &&& best.recipe is None ==> best == self.no_route()
            }),
        decreases n,
    {
        if n == 0 {
            0
        } else {
            let at = self.route_is_offered(costs, u, m, n - 1);
            if self.best_route(costs, u, m, n) == self.best_route(costs, u, m, n - 1) {
                at
            } else {
                n - 1
            }
        }
    }

    /// Of two recipes for a material that tie, the one in hand stays, unless it takes
    /// apart what was made and the other does not; or neither or both do, and the
    /// other comes sooner.
    pub proof fn ties_go_to_the_sooner(
        self,
        cost: CostVector,
        rid: RecipeId,
        depth: u32,
        best: Route,
        other: RecipeId,
    )
        requires
            cost.finite_spec(*self.ar),
            best.cost.finite_spec(*self.ar),
            best.recipe == Some(other),
            !clearly_less_spec(
                *self.ar,
                cost.score_spec(*self.ar, self.w),
                best.cost.score_spec(*self.ar, self.w),
            ),
        ensures
            beats(*self.ar, *self.g, self.w, cost, rid, depth, best) ==> tied_spec(
                *self.ar,
                cost.score_spec(*self.ar, self.w),
                best.cost.score_spec(*self.ar, self.w),
            ),
            beats(*self.ar, *self.g, self.w, cost, rid, depth, best) && self.g.recycling_spec(rid)
                ==> self.g.recycling_spec(other) && depth < best.depth,
            beats(*self.ar, *self.g, self.w, cost, rid, depth, best) && !self.g.recycling_spec(other)
                ==> depth < best.depth,
    {
    }

    /// An offer only improves what is picked: whatever was picked before, and whatever
    /// is offered, what is picked afterwards costs no more, up to the tolerance of a
    /// comparison. What was settled without a recipe is left alone, and so is every
    /// other material.
    pub proof fn offers_only_improve(
        self,
        w: Scale,
        base: Prices,
        p: Picks,
        rid: RecipeId,
        rc: CostVector,
        alt: (MaterialId, u64),
        slack: int,
    )
        requires
            w.measures(*self.ar),
            slack >= 0,
            alt.0 < p.best.len(),
            p.score.len() == p.best.len(),
            p.costs.len() == p.best.len(),
            p.best[alt.0 as int] is Some ==> comparable(
                w,
                *self.ar,
                rc.per_unit_spec(
                    *self.ar,
                    mat_norm_spec(*self.ar, *self.g, alt.0, alt.1),
                ).score_spec(*self.ar, self.w),
                p.score[alt.0 as int],
                slack,
            ),
        ensures
            ({
                let m = alt.0 as int;
                let c = rc.per_unit_spec(
                    *self.ar,
                    mat_norm_spec(*self.ar, *self.g, alt.0, alt.1),
                );
                let q = self.offer(base, p, rid, rc, alt);
                &&& forall|j: int|
                    0 <= j < p.best.len() && j != m ==> #[trigger] q.best[j] == p.best[j]
                        && q.score[j] == p.score[j] && q.costs[j] == p.costs[j]
                &&& base.settled[m] && base.anchor[m] is None ==> q == p
                &&& !(base.settled[m] && base.anchor[m] is None) && !self.ar.le_spec(
                    mat_norm_spec(*self.ar, *self.g, alt.0, alt.1),
                    self.ar.ratio_spec(0, 1),
                ) ==> {
                    &&& q.best[m] is Some
                    &&& p.best[m] is None ==> q.best[m] == Some(rid)
                    &&& p.best[m] is Some ==> (w.of)(q.score[m]) <= (w.of)(p.score[m]) + slack && (
                    w.of)(q.score[m]) <= (w.of)(c.score_spec(*self.ar, self.w)) + slack
                    &&& q.best[m] != p.best[m] ==> q.costs[m] == c && q.score[m] == c.score_spec(
                        *self.ar,
                        self.w,
                    )
                }
            }),
    {
        let m = alt.0 as int;
        let c = rc.per_unit_spec(*self.ar, mat_norm_spec(*self.ar, *self.g, alt.0, alt.1));
        if p.best[m] is Some {
            comparisons_mean(w, *self.ar, c.score_spec(*self.ar, self.w), p.score[m], slack);
        }
    }

    /// Of two recipes that tie, the one through which the material was first reached
    /// is picked; else one that takes nothing apart; else the one that comes sooner;
    /// else the one that leaves the cycle of its product.
    pub proof fn ties_are_broken(
        self,
        anchor: Option<RecipeId>,
        m: MaterialId,
        rid: RecipeId,
        score: Scalar,
        cur: RecipeId,
        cur_score: Scalar,
    )
        requires
            !clearly_less_spec(*self.ar, score, cur_score),
            self.replaces(anchor, m, rid, score, cur, cur_score),
        ensures
            tied_spec(*self.ar, score, cur_score),
            anchor == Some(cur) ==> rid == cur,
            anchor != Some(rid) && self.g.recycling_spec(rid) ==> self.g.recycling_spec(cur),
            anchor != Some(rid) && (self.g.recycling_spec(rid) || !self.g.recycling_spec(cur)) ==> {
                let d = crate::util::recipe_depth_spec(self.depth@, self.g.recipes@[rid as int]);
                let e = crate::util::recipe_depth_spec(self.depth@, self.g.recipes@[cur as int]);
                d < e || (d == e && self.cond.comp_of_recipe@[cur as int]
                    == self.cond.comp_of_material@[m as int] && self.cond.comp_of_recipe@[rid as int]
                    != self.cond.comp_of_material@[m as int])
            },
    {
    }
}

} // verus!

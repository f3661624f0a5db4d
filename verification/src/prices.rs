//! What candidates, slots and recipes cost, in parts of a unit.
use vstd::prelude::*;

use crate::balance::weigh;
use crate::graph::KnowledgeGraph;
use crate::model::{MaterialId, RecipeNode, Slot};
use crate::scalar::{Arithmetic, Scalar};
use crate::scale::{floors, Scale};
use crate::util::{
    alt_cost, cheapest_of, cheapest_spec, inputs_cost, mat_norm_spec, max_depth, min_depth,
    output_unit_costs, recipe_cost_spec, recipe_depth_spec, slot_unit_costs, tie_tol_spec, tied_spec,
};

verus! {

/// A quantity in comparable units: an item counts as one, a fluid as a thousandth.
pub open spec fn counts_for(w: Scale, g: KnowledgeGraph, m: MaterialId, q: u64, n: int) -> bool {
    if g.materials@[m as int].key.kind is Fluid {
        floors(n, q * w.unit, 1000)
    } else {
        n == q * w.unit
    }
}

/// A quantity of a material within range.
pub open spec fn quantity_fits<A: Arithmetic>(
    w: Scale,
    ar: A,
    g: KnowledgeGraph,
    m: MaterialId,
    q: u64,
) -> bool {
    (w.fits)(mat_norm_spec(ar, g, m, q))
}

/// A quantity is counted in comparable units.
pub proof fn quantities_count<A: Arithmetic>(
    w: Scale,
    ar: A,
    g: KnowledgeGraph,
    m: MaterialId,
    q: u64,
)
    requires
        w.measures(ar),
        quantity_fits(w, ar, g, m, q),
    ensures
        counts_for(w, g, m, q, (w.of)(mat_norm_spec(ar, g, m, q))),
        w.amount(mat_norm_spec(ar, g, m, q)),
{
    if !(g.materials@[m as int].key.kind is Fluid) {
        w.whole(ar, q);
        let u = w.unit;
        assert(q * u >= 0) by (nonlinear_arith)
            requires
                q >= 0,
                u > 0,
        ;
    }
}

/// What a candidate costs: its quantity in comparable units times the cost of one.
pub open spec fn costs(w: Scale, g: KnowledgeGraph, price: int, alt: (MaterialId, u64), c: int) -> bool {
    exists|n: int| #[trigger] counts_for(w, g, alt.0, alt.1, n) && floors(c, price * n, w.unit)
}

/// The numbers of a candidate are within range.
pub open spec fn candidate_fits<A: Arithmetic>(
    w: Scale,
    ar: A,
    g: KnowledgeGraph,
    unit_cost: Seq<Scalar>,
    alt: (MaterialId, u64),
) -> bool {
    &&& w.amount(unit_cost[alt.0 as int])
    &&& quantity_fits(w, ar, g, alt.0, alt.1)
    &&& (w.fits)(alt_cost(ar, g, unit_cost, alt))
}

/// A candidate costs its quantity times the cost of one.
pub proof fn candidates_cost<A: Arithmetic>(
    w: Scale,
    ar: A,
    g: KnowledgeGraph,
    unit_cost: Seq<Scalar>,
    alt: (MaterialId, u64),
)
    requires
        w.measures(ar),
        candidate_fits(w, ar, g, unit_cost, alt),
    ensures
        w.amount(alt_cost(ar, g, unit_cost, alt)),
        costs(
            w,
            g,
            (w.of)(unit_cost[alt.0 as int]),
            alt,
            (w.of)(alt_cost(ar, g, unit_cost, alt)),
        ),
{
    quantities_count(w, ar, g, alt.0, alt.1);
    assert(counts_for(w, g, alt.0, alt.1, (w.of)(mat_norm_spec(ar, g, alt.0, alt.1))));
}

/// Costs of `alts` are within range and compared up to `slack` parts.
pub open spec fn comparable<A: Arithmetic>(
    w: Scale,
    ar: A,
    g: KnowledgeGraph,
    unit_cost: Seq<Scalar>,
    alts: Seq<(MaterialId, u64)>,
    slack: int,
) -> bool {
    &&& forall|j: int|
        0 <= j < alts.len() ==> candidate_fits(w, ar, g, unit_cost, #[trigger] alts[j])
    &&& forall|i: int, j: int|
        0 <= i < alts.len() && 0 <= j < alts.len() ==> {
            let a = alt_cost(ar, g, unit_cost, #[trigger] alts[i]);
            let b = alt_cost(ar, g, unit_cost, #[trigger] alts[j]);
            &&& (w.fits)(ar.minus_spec(a, b))
            &&& (w.fits)(ar.abs_spec(ar.minus_spec(a, b)))
            &&& w.amount(tie_tol_spec(ar, a, b))
            &&& (w.of)(tie_tol_spec(ar, a, b)) <= slack
        }
}

/// The candidate that fills a slot is the cheapest: none is cheaper by more than the
/// tolerance of a comparison, once for it and once for each candidate after it.
pub proof fn cheapest_is_cheapest<A: Arithmetic>(
    w: Scale,
    ar: A,
    g: KnowledgeGraph,
    unit_cost: Seq<Scalar>,
    cyclic: Option<Seq<bool>>,
    alts: Seq<(MaterialId, u64)>,
    slack: int,
    i: int,
    j: int,
)
    requires
        w.measures(ar),
        slack >= 0,
        comparable(w, ar, g, unit_cost, alts, slack),
        0 <= j < i <= alts.len(),
    ensures
        cheapest_of(ar, g, unit_cost, cyclic, alts, i) matches Some(best) && (w.of)(
            alt_cost(ar, g, unit_cost, best),
        ) <= (w.of)(alt_cost(ar, g, unit_cost, alts[j])) + slack * (i - j),
    decreases i,
{
    crate::util::cheapest_is_candidate(ar, g, unit_cost, cyclic, alts, i);
    let last = alts[i - 1];
    assert(slack * (i - j) == slack * (i - 1 - j) + slack) by (nonlinear_arith);
    assert(slack * (i - 1 - j) >= 0) by (nonlinear_arith)
        requires
            slack >= 0,
            j < i,
    ;
    if i > 1 {
        crate::util::cheapest_is_candidate(ar, g, unit_cost, cyclic, alts, i - 1);
        let best = cheapest_of(ar, g, unit_cost, cyclic, alts, i - 1)->0;
        let b = choose|b: int| 0 <= b < alts.len() && alts[b] == best;
        assert(candidate_fits(w, ar, g, unit_cost, alts[b]));
        assert(candidate_fits(w, ar, g, unit_cost, alts[i - 1]));
        candidates_cost(w, ar, g, unit_cost, alts[b]);
        candidates_cost(w, ar, g, unit_cost, last);
        same_order(
            w,
            ar,
            alt_cost(ar, g, unit_cost, last),
            alt_cost(ar, g, unit_cost, best),
            slack,
        );
        if j < i - 1 {
            cheapest_is_cheapest(w, ar, g, unit_cost, cyclic, alts, slack, i - 1, j);
        }
    }
}

proof fn same_order<A: Arithmetic>(w: Scale, ar: A, a: Scalar, b: Scalar, slack: int)
    requires
        w.measures(ar),
        w.amount(a),
        w.amount(b),
        (w.fits)(ar.minus_spec(a, b)),
        (w.fits)(ar.abs_spec(ar.minus_spec(a, b))),
        w.amount(tie_tol_spec(ar, a, b)),
        (w.of)(tie_tol_spec(ar, a, b)) <= slack,
    ensures
        tied_spec(ar, a, b) ==> -slack <= (w.of)(a) - (w.of)(b) <= slack,
        (w.of)(a) == (w.of)(b) ==> tied_spec(ar, a, b),
        ar.lt_spec(a, b) <==> (w.of)(a) < (w.of)(b),
        ar.finite_spec(a),
        ar.finite_spec(b),
{
    assert((w.of)(ar.minus_spec(a, b)) == (w.of)(a) - (w.of)(b));
    let d = ar.abs_spec(ar.minus_spec(a, b));
    assert(ar.le_spec(d, tie_tol_spec(ar, a, b)) <==> (w.of)(d) <= (w.of)(
        tie_tol_spec(ar, a, b),
    ));
}

/// Whether a candidate lies on a cycle.
pub open spec fn on_cycle(cyclic: Option<Seq<bool>>, alt: (MaterialId, u64)) -> bool {
    cyclic matches Some(cy) && cy[alt.0 as int]
}

/// A candidate is better than another: it is cheaper, or costs as much and is off
/// the cycles that the other lies on.
pub open spec fn better<A: Arithmetic>(
    w: Scale,
    ar: A,
    g: KnowledgeGraph,
    unit_cost: Seq<Scalar>,
    cyclic: Option<Seq<bool>>,
    a: (MaterialId, u64),
    b: (MaterialId, u64),
) -> bool {
    let ca = (w.of)(alt_cost(ar, g, unit_cost, a));
    let cb = (w.of)(alt_cost(ar, g, unit_cost, b));
    ca < cb || (ca == cb && !on_cycle(cyclic, a) && on_cycle(cyclic, b))
}

/// Where costs are compared to the last part, the candidate that fills a slot is the
/// first than which none is better.
pub proof fn first_of_the_best<A: Arithmetic>(
    w: Scale,
    ar: A,
    g: KnowledgeGraph,
    unit_cost: Seq<Scalar>,
    cyclic: Option<Seq<bool>>,
    alts: Seq<(MaterialId, u64)>,
    i: int,
) -> (k: int)
    requires
        w.measures(ar),
        comparable(w, ar, g, unit_cost, alts, 0),
        0 < i <= alts.len(),
    ensures
        0 <= k < i,
        cheapest_of(ar, g, unit_cost, cyclic, alts, i) == Some(alts[k]),
        forall|j: int|
            0 <= j < i ==> !better(w, ar, g, unit_cost, cyclic, #[trigger] alts[j], alts[k]),
        forall|j: int|
            0 <= j < k ==> better(w, ar, g, unit_cost, cyclic, alts[k], #[trigger] alts[j]),
    decreases i,
{
    if i == 1 {
        reveal_with_fuel(cheapest_of, 2);
        0
    } else {
        let k = first_of_the_best(w, ar, g, unit_cost, cyclic, alts, i - 1);
        assert(candidate_fits(w, ar, g, unit_cost, alts[k]));
        assert(candidate_fits(w, ar, g, unit_cost, alts[i - 1]));
        candidates_cost(w, ar, g, unit_cost, alts[k]);
        candidates_cost(w, ar, g, unit_cost, alts[i - 1]);
        same_order(
            w,
            ar,
            alt_cost(ar, g, unit_cost, alts[i - 1]),
            alt_cost(ar, g, unit_cost, alts[k]),
            0,
        );
        if cheapest_of(ar, g, unit_cost, cyclic, alts, i) == Some(alts[k]) {
            k
        } else {
            i - 1
        }
    }
}

/// What the cheapest candidate of a slot costs, in parts.
pub open spec fn slot_parts<A: Arithmetic>(
    w: Scale,
    ar: A,
    g: KnowledgeGraph,
    unit_cost: Seq<Scalar>,
    cyclic: Option<Seq<bool>>,
    slot: Slot,
) -> int {
    (w.of)(alt_cost(ar, g, unit_cost, cheapest_spec(ar, g, unit_cost, cyclic, slot)->0))
}

/// Every slot has a candidate, and the sums of the costs of slots are within range.
pub open spec fn inputs_fit<A: Arithmetic>(
    w: Scale,
    ar: A,
    g: KnowledgeGraph,
    unit_cost: Seq<Scalar>,
    cyclic: Option<Seq<bool>>,
    inputs: Seq<Slot>,
) -> bool {
    &&& forall|s: int|
        0 <= s < inputs.len() ==> (cheapest_spec(
            ar,
            g,
            unit_cost,
            cyclic,
            #[trigger] inputs[s],
        ) matches Some(alt) && candidate_fits(w, ar, g, unit_cost, alt))
    &&& forall|s: int|
        0 <= s <= inputs.len() ==> (#[trigger] inputs_cost(
            ar,
            g,
            unit_cost,
            cyclic,
            inputs,
            s,
        ) matches Some(c) ==> (w.fits)(c))
}

/// An operation costs what the cheapest candidates of its slots cost together.
pub proof fn recipes_cost<A: Arithmetic>(
    w: Scale,
    ar: A,
    g: KnowledgeGraph,
    unit_cost: Seq<Scalar>,
    cyclic: Option<Seq<bool>>,
    r: RecipeNode,
)
    requires
        w.measures(ar),
        inputs_fit(w, ar, g, unit_cost, cyclic, r.inputs@),
    ensures
        (w.of)(recipe_cost_spec(ar, g, unit_cost, cyclic, r)) == weigh(
            r.inputs@,
            |s: Slot| slot_parts(w, ar, g, unit_cost, cyclic, s),
        ),
{
    sums_of_slots(w, ar, g, unit_cost, cyclic, r.inputs@, r.inputs@.len() as int);
    assert(r.inputs@.take(r.inputs@.len() as int) =~= r.inputs@);
}

proof fn sums_of_slots<A: Arithmetic>(
    w: Scale,
    ar: A,
    g: KnowledgeGraph,
    unit_cost: Seq<Scalar>,
    cyclic: Option<Seq<bool>>,
    inputs: Seq<Slot>,
    i: int,
)
    requires
        w.measures(ar),
        inputs_fit(w, ar, g, unit_cost, cyclic, inputs),
        0 <= i <= inputs.len(),
    ensures
        inputs_cost(ar, g, unit_cost, cyclic, inputs, i) matches Some(c) && (w.fits)(c) && (w.of)(c)
            == weigh(
            inputs.take(i),
            |s: Slot| slot_parts(w, ar, g, unit_cost, cyclic, s),
        ),
    decreases i,
{
    let f = |s: Slot| slot_parts(w, ar, g, unit_cost, cyclic, s);
    let now = inputs_cost(ar, g, unit_cost, cyclic, inputs, i);
    if i == 0 {
        w.whole(ar, 0);
        assert(inputs.take(0).len() == 0);
    } else {
        sums_of_slots(w, ar, g, unit_cost, cyclic, inputs, i - 1);
        assert(inputs.take(i).drop_last() =~= inputs.take(i - 1));
        assert(inputs.take(i).last() == inputs[i - 1]);
        let alt = cheapest_spec(ar, g, unit_cost, cyclic, inputs[i - 1])->0;
        assert(candidate_fits(w, ar, g, unit_cost, alt));
        candidates_cost(w, ar, g, unit_cost, alt);
        assert(ar.finite_spec(unit_cost[alt.0 as int]));
        assert(now is Some && (w.fits)(now->0));
    }
}

/// An operation with a slot that nothing within reach can fill is out of reach.
pub proof fn unfilled_slots_are_dear<A: Arithmetic>(
    ar: A,
    g: KnowledgeGraph,
    unit_cost: Seq<Scalar>,
    cyclic: Option<Seq<bool>>,
    r: RecipeNode,
    s: int,
)
    requires
        0 <= s < r.inputs@.len(),
        forall|a: int|
            0 <= a < r.inputs@[s].alts@.len() ==> !ar.finite_spec(
                unit_cost[(#[trigger] r.inputs@[s].alts@[a]).0 as int],
            ),
    ensures
        recipe_cost_spec(ar, g, unit_cost, cyclic, r) == ar.infinity_spec(),
{
    no_sum(ar, g, unit_cost, cyclic, r.inputs@, s, r.inputs@.len() as int);
}

proof fn no_sum<A: Arithmetic>(
    ar: A,
    g: KnowledgeGraph,
    unit_cost: Seq<Scalar>,
    cyclic: Option<Seq<bool>>,
    inputs: Seq<Slot>,
    s: int,
    i: int,
)
    requires
        0 <= s < i <= inputs.len(),
        forall|a: int|
            0 <= a < inputs[s].alts@.len() ==> !ar.finite_spec(
                unit_cost[(#[trigger] inputs[s].alts@[a]).0 as int],
            ),
    ensures
        inputs_cost(ar, g, unit_cost, cyclic, inputs, i) is None,
    decreases i,
{
    if s < i - 1 {
        no_sum(ar, g, unit_cost, cyclic, inputs, s, i - 1);
    } else {
        let alts = inputs[s].alts@;
        crate::util::cheapest_is_candidate(ar, g, unit_cost, cyclic, alts, alts.len() as int);
        if let Some(alt) = cheapest_spec(ar, g, unit_cost, cyclic, inputs[s]) {
            let a = choose|a: int| 0 <= a < alts.len() && alts[a] == alt;
            assert(!ar.finite_spec(unit_cost[alts[a].0 as int]));
        }
    }
}

/// One of a material costs the cost of its slot, divided by the quantity.
pub open spec fn shares_cost(w: Scale, price: int, n: int, slot_cost: int) -> bool {
    floors(price, slot_cost * w.unit, n)
}

/// What the output slot `s` bears of the cost of an operation: all of it where it is
/// the first, else its share.
pub open spec fn bears(w: Scale, r: RecipeNode, s: int, cost: int, slot_cost: int) -> bool {
    if s == 0 {
        slot_cost == cost
    } else {
        floors(slot_cost, cost, r.outputs@.len() as int)
    }
}

/// The numbers of the outputs of a recipe are within range and its quantities more
/// than nothing.
pub open spec fn outputs_fit<A: Arithmetic>(
    w: Scale,
    ar: A,
    g: KnowledgeGraph,
    r: RecipeNode,
    cost: Scalar,
) -> bool {
    let each = ar.over_spec(cost, ar.ratio_spec(r.outputs@.len() as u64, 1));
    &&& r.outputs@.len() <= u64::MAX
    &&& w.amount(cost)
    &&& (w.fits)(ar.ratio_spec(r.outputs@.len() as u64, 1))
    &&& (w.fits)(each)
    &&& forall|s: int, a: int|
        #![trigger r.outputs@[s].alts@[a]]
        0 <= s < r.outputs@.len() && 0 <= a < r.outputs@[s].alts@.len() ==> {
            let (m, q) = r.outputs@[s].alts@[a];
            let n = mat_norm_spec(ar, g, m, q);
            &&& (w.fits)(n) && (w.of)(n) > 0
            &&& (w.fits)(ar.over_spec(if s == 0 { cost } else { each }, n))
        }
}

/// A price is set for `m`, which comes in the quantity `q` out of the slot `s`: the
/// quantity at that price costs what the slot bears, up to the rounding of a part.
pub open spec fn priced(
    w: Scale,
    g: KnowledgeGraph,
    r: RecipeNode,
    cost: int,
    s: int,
    alt: (MaterialId, u64),
    e: (MaterialId, Scalar),
) -> bool {
    e.0 == alt.0 && exists|n: int, slot_cost: int|
        #![trigger counts_for(w, g, alt.0, alt.1, n), bears(w, r, s, cost, slot_cost)]
        counts_for(w, g, alt.0, alt.1, n) && bears(w, r, s, cost, slot_cost) && shares_cost(
            w,
            (w.of)(e.1),
            n,
            slot_cost,
        )
}

/// Every output of a recipe is priced.
pub proof fn outputs_are_priced<A: Arithmetic>(
    w: Scale,
    ar: A,
    g: KnowledgeGraph,
    r: RecipeNode,
    cost: Scalar,
    s: int,
    a: int,
)
    requires
        w.measures(ar),
        outputs_fit(w, ar, g, r, cost),
        0 <= s < r.outputs@.len(),
        0 <= a < r.outputs@[s].alts@.len(),
    ensures
        exists|i: int|
            0 <= i < output_unit_costs(ar, g, r, cost, r.outputs@.len() as int).len() && priced(
                w,
                g,
                r,
                (w.of)(cost),
                s,
                r.outputs@[s].alts@[a],
                #[trigger] output_unit_costs(ar, g, r, cost, r.outputs@.len() as int)[i],
            ),
{
    let i = priced_at(w, ar, g, r, cost, s, a, r.outputs@.len() as int);
    let e = output_unit_costs(ar, g, r, cost, r.outputs@.len() as int)[i];
    let (m, q) = r.outputs@[s].alts@[a];
    let n = mat_norm_spec(ar, g, m, q);
    quantities_count(w, ar, g, m, q);
    let k = r.outputs@.len() as u64;
    w.whole(ar, k);
    let each = ar.over_spec(cost, ar.ratio_spec(k, 1));
    let u = w.unit;
    assert(k * u > 0) by (nonlinear_arith)
        requires
            k > 0,
            u > 0,
    ;
    let x = (w.of)(each);
    let c = (w.of)(cost);
    assert(floors(x, c, k as int)) by {
        assert(x * (k * u) <= c * u < x * (k * u) + k * u);
        assert(x * k <= c && c < x * k + k) by (nonlinear_arith)
            requires
                x * (k * u) <= c * u < x * (k * u) + k * u,
                u > 0,
        ;
    }
    let bears_it = if s == 0 { cost } else { each };
    assert(bears(w, r, s, c, (w.of)(bears_it)));
    assert(counts_for(w, g, m, q, (w.of)(n)));
    assert(shares_cost(w, (w.of)(e.1), (w.of)(n), (w.of)(bears_it)));
    assert(priced(w, g, r, c, s, r.outputs@[s].alts@[a], e));
}

/// Where the price of the candidate `a` of the slot `s` stands.
proof fn priced_at<A: Arithmetic>(
    w: Scale,
    ar: A,
    g: KnowledgeGraph,
    r: RecipeNode,
    cost: Scalar,
    s: int,
    a: int,
    t: int,
) -> (i: int)
    requires
        w.measures(ar),
        outputs_fit(w, ar, g, r, cost),
        0 <= s < t <= r.outputs@.len(),
        0 <= a < r.outputs@[s].alts@.len(),
    ensures
        ({
            let all = output_unit_costs(ar, g, r, cost, t);
            let (m, q) = r.outputs@[s].alts@[a];
            let share = if s == 0 {
                cost
            } else {
                ar.over_spec(cost, ar.ratio_spec(r.outputs@.len() as u64, 1))
            };
            &&& 0 <= i < all.len()
            &&& all[i] == (m, ar.over_spec(share, mat_norm_spec(ar, g, m, q)))
        }),
    decreases t,
{
    let rest = output_unit_costs(ar, g, r, cost, t - 1);
    if s < t - 1 {
        priced_at(w, ar, g, r, cost, s, a, t - 1)
    } else {
        let alts = r.outputs@[s].alts@;
        let share = if s == 0 {
            cost
        } else {
            ar.over_spec(cost, ar.ratio_spec(r.outputs@.len() as u64, 1))
        };
        assert forall|k: int| 0 <= k < alts.len() implies ar.lt_spec(
            ar.ratio_spec(0, 1),
            mat_norm_spec(ar, g, (#[trigger] alts[k]).0, alts[k].1),
        ) by {
            assert(r.outputs@[s].alts@[k] == alts[k]);
            w.whole(ar, 0);
        }
        slot_prices(ar, g, alts, share, alts.len() as int);
        rest.len() + a
    }
}

proof fn slot_prices<A: Arithmetic>(
    ar: A,
    g: KnowledgeGraph,
    alts: Seq<(MaterialId, u64)>,
    slot_cost: Scalar,
    i: int,
)
    requires
        0 <= i <= alts.len(),
        forall|k: int|
            0 <= k < alts.len() ==> ar.lt_spec(
                ar.ratio_spec(0, 1),
                mat_norm_spec(ar, g, (#[trigger] alts[k]).0, alts[k].1),
            ),
    ensures
        slot_unit_costs(ar, g, alts, slot_cost, i).len() == i,
        forall|k: int|
            0 <= k < i ==> #[trigger] slot_unit_costs(ar, g, alts, slot_cost, i)[k] == (
                alts[k].0,
                ar.over_spec(slot_cost, mat_norm_spec(ar, g, alts[k].0, alts[k].1)),
            ),
    decreases i,
{
    if i > 0 {
        slot_prices(ar, g, alts, slot_cost, i - 1);
    }
}

/// The candidate that is reached first is reached within `d`.
pub open spec fn reached_within(depth: Seq<u32>, slot: Slot, d: int) -> bool {
    exists|a: int|
        0 <= a < slot.alts@.len() && depth[(#[trigger] slot.alts@[a]).0 as int] <= d
}

/// No candidate is reached within `d`.
pub open spec fn not_reached_before(depth: Seq<u32>, slot: Slot, d: int) -> bool {
    forall|a: int|
        0 <= a < slot.alts@.len() ==> depth[(#[trigger] slot.alts@[a]).0 as int] >= d
}

/// A recipe comes just after the slot that is filled last, each slot being filled by
/// whichever candidate comes first.
pub proof fn depth_follows_slots(depth: Seq<u32>, r: RecipeNode)
    ensures
        ({
            let d = recipe_depth_spec(depth, r);
            &&& d > 0
            &&& d < u32::MAX ==> forall|s: int|
                0 <= s < r.inputs@.len() ==> reached_within(depth, #[trigger] r.inputs@[s], d - 1)
            &&& d > 1 ==> exists|s: int|
                0 <= s < r.inputs@.len() && not_reached_before(
                    depth,
                    #[trigger] r.inputs@[s],
                    d - 1,
                )
        }),
{
    let n = r.inputs@.len() as int;
    deepest(depth, r.inputs@, n);
}

proof fn deepest(depth: Seq<u32>, slots: Seq<Slot>, s: int)
    requires
        0 <= s <= slots.len(),
    ensures
        max_depth(depth, slots, s) < u32::MAX ==> forall|t: int|
            0 <= t < s ==> reached_within(
                depth,
                #[trigger] slots[t],
                max_depth(depth, slots, s) as int,
            ),
        max_depth(depth, slots, s) > 0 ==> exists|t: int|
            0 <= t < s && not_reached_before(
                depth,
                #[trigger] slots[t],
                max_depth(depth, slots, s) as int,
            ),
    decreases s,
{
    if s > 0 {
        deepest(depth, slots, s - 1);
        let slot = slots[s - 1];
        let d = min_depth(depth, slot.alts@, slot.alts@.len() as int);
        let before = max_depth(depth, slots, s - 1);
        let now = max_depth(depth, slots, s);
        shallowest(depth, slot.alts@, slot.alts@.len() as int);
        assert(not_reached_before(depth, slot, d as int));
        if now < u32::MAX {
            assert forall|t: int| 0 <= t < s implies reached_within(
                depth,
                #[trigger] slots[t],
                now as int,
            ) by {
                if t < s - 1 {
                    assert(reached_within(depth, slots[t], before as int));
                }
            }
        }
        if now > 0 {
            if d > before {
                assert(not_reached_before(depth, slots[s - 1], now as int));
            } else {
                let t = choose|t: int|
                    0 <= t < s - 1 && not_reached_before(depth, #[trigger] slots[t], before as int);
                assert(not_reached_before(depth, slots[t], now as int));
            }
        }
    }
}

proof fn shallowest(depth: Seq<u32>, alts: Seq<(MaterialId, u64)>, i: int)
    requires
        0 <= i <= alts.len(),
    ensures
        forall|a: int|
            0 <= a < i ==> depth[(#[trigger] alts[a]).0 as int] >= min_depth(depth, alts, i),
        min_depth(depth, alts, i) < u32::MAX ==> exists|a: int|
            0 <= a < i && depth[(#[trigger] alts[a]).0 as int] == min_depth(depth, alts, i),
    decreases i,
{
    if i > 0 {
        shallowest(depth, alts, i - 1);
        if min_depth(depth, alts, i) < u32::MAX {
            if depth[alts[i - 1].0 as int] != min_depth(depth, alts, i) {
                let a = choose|a: int|
                    0 <= a < i - 1 && depth[(#[trigger] alts[a]).0 as int] == min_depth(
                        depth,
                        alts,
                        i - 1,
                    );
                assert(depth[alts[a].0 as int] == min_depth(depth, alts, i));
            }
        }
    }
}

} // verus!

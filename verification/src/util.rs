//! Quantities, candidates of slots and costs of recipes.
//!
//! Costs are compared with a relative tolerance: rounding noise, such as that of
//! `9 * (c / 9)`, counts as a tie. Otherwise a cycle that gives back what it
//! takes could win by a hair and an expansion would never end. Of tied
//! candidates the one that is not on a cycle wins.
use vstd::prelude::*;

use crate::graph::KnowledgeGraph;
use crate::model::{MaterialId, MaterialKind, RecipeId, RecipeNode, Slot};
use crate::scalar::{Arithmetic, Scalar};

verus! {

/// A quantity in comparable units: pieces of an item, buckets (of 1000 mB) of a
/// fluid.
pub open spec fn norm_qty_spec<A: Arithmetic>(ar: A, kind: MaterialKind, qty: u64) -> Scalar {
    if kind is Fluid {
        ar.ratio_spec(qty, 1000)
    } else {
        ar.ratio_spec(qty, 1)
    }
}

/// A quantity in comparable units: pieces of an item, buckets (of 1000 mB) of a
/// fluid.
pub fn norm_qty<A: Arithmetic>(ar: &A, kind: MaterialKind, qty: u64) -> (r: Scalar)
    ensures
        r == norm_qty_spec(*ar, kind, qty),
{
    match kind {
        MaterialKind::Fluid => ar.ratio(qty, 1000),
        _ => ar.ratio(qty, 1),
    }
}

pub open spec fn mat_norm_spec<A: Arithmetic>(ar: A, g: KnowledgeGraph, m: MaterialId, qty: u64) -> Scalar {
    norm_qty_spec(ar, g.materials@[m as int].key.kind, qty)
}

/// The quantity of a material in comparable units.
pub fn mat_norm_qty<A: Arithmetic>(ar: &A, g: &KnowledgeGraph, m: MaterialId, qty: u64) -> (r: Scalar)
    requires
        m < g.m_count(),
    ensures
        r == mat_norm_spec(*ar, *g, m, qty),
{
    norm_qty(ar, g.material(m).key.kind, qty)
}

/// Two costs that differ by no more count as equal.
pub open spec fn tie_tol_spec<A: Arithmetic>(ar: A, a: Scalar, b: Scalar) -> Scalar {
    ar.times_spec(
        ar.ratio_spec(1, 1_000_000_000),
        ar.plus_spec(ar.ratio_spec(1, 1), ar.most_spec(ar.abs_spec(a), ar.abs_spec(b))),
    )
}

/// The relative tolerance of comparisons.
pub fn tie_tol<A: Arithmetic>(ar: &A, a: Scalar, b: Scalar) -> (r: Scalar)
    ensures
        r == tie_tol_spec(*ar, a, b),
{
    ar.times(
        ar.ratio(1, 1_000_000_000),
        ar.plus(ar.ratio(1, 1), ar.most(ar.abs(a), ar.abs(b))),
    )
}

/// Two costs count as equal.
pub open spec fn tied_spec<A: Arithmetic>(ar: A, a: Scalar, b: Scalar) -> bool {
    ar.le_spec(ar.abs_spec(ar.minus_spec(a, b)), tie_tol_spec(ar, a, b))
}

/// Whether two costs count as equal.
pub fn tied<A: Arithmetic>(ar: &A, a: Scalar, b: Scalar) -> (r: bool)
    ensures
        r == tied_spec(*ar, a, b),
{
    ar.le(ar.abs(ar.minus(a, b)), tie_tol(ar, a, b))
}

/// A cost is smaller by more than the tolerance.
pub open spec fn clearly_less_spec<A: Arithmetic>(ar: A, a: Scalar, b: Scalar) -> bool {
    ar.lt_spec(a, ar.minus_spec(b, tie_tol_spec(ar, a, b)))
}

/// Whether a cost is smaller by more than the tolerance.
pub fn clearly_less<A: Arithmetic>(ar: &A, a: Scalar, b: Scalar) -> (r: bool)
    ensures
        r == clearly_less_spec(*ar, a, b),
{
    ar.lt(a, ar.minus(b, tie_tol(ar, a, b)))
}

/// The cost of filling a slot with a candidate.
pub open spec fn alt_cost<A: Arithmetic>(
    ar: A,
    g: KnowledgeGraph,
    unit_cost: Seq<Scalar>,
    alt: (MaterialId, u64),
) -> Scalar {
    ar.times_spec(unit_cost[alt.0 as int], mat_norm_spec(ar, g, alt.0, alt.1))
}

/// Candidate `alt` is to be preferred to the best one so far: it is cheaper, or
/// it ties with it and is not on a cycle while the other one is. Any finite cost
/// is cheaper than one that is not finite.
pub open spec fn preferred<A: Arithmetic>(
    ar: A,
    g: KnowledgeGraph,
    unit_cost: Seq<Scalar>,
    cyclic: Option<Seq<bool>>,
    alt: (MaterialId, u64),
    best: (MaterialId, u64),
) -> bool {
    let c = alt_cost(ar, g, unit_cost, alt);
    let bc = alt_cost(ar, g, unit_cost, best);
    if ar.finite_spec(c) != ar.finite_spec(bc) {
        ar.finite_spec(c)
    } else if tied_spec(ar, c, bc) {
        match cyclic {
            Some(cy) => !cy[alt.0 as int] && cy[best.0 as int],
            None => false,
        }
    } else {
        ar.lt_spec(c, bc)
    }
}

/// The best of the first `i` candidates.
pub open spec fn cheapest_of<A: Arithmetic>(
    ar: A,
    g: KnowledgeGraph,
    unit_cost: Seq<Scalar>,
    cyclic: Option<Seq<bool>>,
    alts: Seq<(MaterialId, u64)>,
    i: int,
) -> Option<(MaterialId, u64)>
    decreases i,
{
    if i <= 0 {
        None
    } else {
        match cheapest_of(ar, g, unit_cost, cyclic, alts, i - 1) {
            None => Some(alts[i - 1]),
            Some(best) => if preferred(ar, g, unit_cost, cyclic, alts[i - 1], best) {
                Some(alts[i - 1])
            } else {
                Some(best)
            },
        }
    }
}

/// The candidate that fills a slot.
pub open spec fn cheapest_spec<A: Arithmetic>(
    ar: A,
    g: KnowledgeGraph,
    unit_cost: Seq<Scalar>,
    cyclic: Option<Seq<bool>>,
    slot: Slot,
) -> Option<(MaterialId, u64)> {
    cheapest_of(ar, g, unit_cost, cyclic, slot.alts@, slot.alts@.len() as int)
}

/// The flags behind an optional reference.
pub open spec fn flags(cyclic: Option<&Vec<bool>>) -> Option<Seq<bool>> {
    match cyclic {
        Some(v) => Some(v@),
        None => None,
    }
}

/// The cheapest candidate of a slot, one within reach before any that is not;
/// of tied ones the one that is not on a cycle, where cycles are known, and
/// otherwise the first.
pub fn cheapest_alt<A: Arithmetic>(
    ar: &A,
    g: &KnowledgeGraph,
    unit_cost: &Vec<Scalar>,
    cyclic: Option<&Vec<bool>>,
    slot: &Slot,
) -> (r: Option<(MaterialId, u64)>)
    requires
        crate::graph::slot_ok(*slot, g.m_count()),
        unit_cost@.len() == g.m_count(),
        cyclic matches Some(v) ==> v@.len() == g.m_count(),
    ensures
        r == cheapest_spec(*ar, *g, unit_cost@, flags(cyclic), *slot),
        r matches Some((m, q)) && slot.alts@.contains((m, q)) && m < g.m_count(),
{
    let mut best: Option<(MaterialId, u64, Scalar)> = None;
    let mut i: usize = 0;
    while i < slot.alts.len()
        invariant
            i <= slot.alts@.len(),
            crate::graph::slot_ok(*slot, g.m_count()),
            unit_cost@.len() == g.m_count(),
            cyclic matches Some(v) ==> v@.len() == g.m_count(),
            i > 0 ==> best is Some,
            match best {
                None => cheapest_of(*ar, *g, unit_cost@, flags(cyclic), slot.alts@, i as int)
                    is None,
                Some((m, q, c)) => slot.alts@.contains((m, q)) && m < g.m_count() && cheapest_of(
                    *ar,
                    *g,
                    unit_cost@,
                    flags(cyclic),
                    slot.alts@,
                    i as int,
                ) == Some((m, q)) && c == alt_cost(*ar, *g, unit_cost@, (m, q)),
            },
        decreases slot.alts@.len() - i,
    {
        let (m, q): (u32, u64) = slot.alts[i];
        assert(slot.alts@.contains(slot.alts@[i as int]));
        let c = ar.times(unit_cost[m as usize], mat_norm_qty(ar, g, m, q));
        let better = match best {
            None => true,
            Some((bm, _, bc)) => {
                let within_reach = ar.is_finite(c);
                if within_reach != ar.is_finite(bc) {
                    within_reach
                } else if tied(ar, c, bc) {
                    match cyclic {
                        Some(cy) => !cy[m as usize] && cy[bm as usize],
                        None => false,
                    }
                } else {
                    ar.lt(c, bc)
                }
            },
        };
        if better {
            best = Some((m, q, c));
        }
        i += 1;
    }
    match best {
        Some((m, q, _)) => Some((m, q)),
        None => None,
    }
}

/// What the first `i` input slots cost; nothing where a slot cannot be filled
/// at a finite cost.
pub open spec fn inputs_cost<A: Arithmetic>(
    ar: A,
    g: KnowledgeGraph,
    unit_cost: Seq<Scalar>,
    cyclic: Option<Seq<bool>>,
    inputs: Seq<Slot>,
    i: int,
) -> Option<Scalar>
    decreases i,
{
    if i <= 0 {
        Some(ar.ratio_spec(0, 1))
    } else {
        match (
            inputs_cost(ar, g, unit_cost, cyclic, inputs, i - 1),
            cheapest_spec(ar, g, unit_cost, cyclic, inputs[i - 1]),
        ) {
            (Some(total), Some(alt)) => if ar.finite_spec(unit_cost[alt.0 as int]) {
                Some(ar.plus_spec(total, alt_cost(ar, g, unit_cost, alt)))
            } else {
                None
            },
            _ => None,
        }
    }
}

/// The cost of one operation of a recipe.
pub open spec fn recipe_cost_spec<A: Arithmetic>(
    ar: A,
    g: KnowledgeGraph,
    unit_cost: Seq<Scalar>,
    cyclic: Option<Seq<bool>>,
    r: RecipeNode,
) -> Scalar {
    match inputs_cost(ar, g, unit_cost, cyclic, r.inputs@, r.inputs@.len() as int) {
        Some(total) => total,
        None => ar.infinity_spec(),
    }
}

proof fn inputs_cost_stays_none<A: Arithmetic>(
    ar: A,
    g: KnowledgeGraph,
    unit_cost: Seq<Scalar>,
    cyclic: Option<Seq<bool>>,
    inputs: Seq<Slot>,
    i: int,
    j: int,
)
    requires
        0 <= i <= j,
        inputs_cost(ar, g, unit_cost, cyclic, inputs, i) is None,
    ensures
        inputs_cost(ar, g, unit_cost, cyclic, inputs, j) is None,
    decreases j,
{
    if i < j {
        inputs_cost_stays_none(ar, g, unit_cost, cyclic, inputs, i, j - 1);
    }
}

/// The cost of one operation of a recipe: the cheapest candidates of its input
/// slots, in comparable units. Infinite where a slot has no candidate of finite
/// cost to offer.
pub fn recipe_cost<A: Arithmetic>(
    ar: &A,
    g: &KnowledgeGraph,
    unit_cost: &Vec<Scalar>,
    cyclic: Option<&Vec<bool>>,
    r: &RecipeNode,
) -> (c: Scalar)
    requires
        crate::graph::slots_ok(r.inputs@, g.m_count()),
        unit_cost@.len() == g.m_count(),
        cyclic matches Some(v) ==> v@.len() == g.m_count(),
    ensures
        c == recipe_cost_spec(*ar, *g, unit_cost@, flags(cyclic), *r),
{
    let mut total = ar.ratio(0, 1);
    let mut i: usize = 0;
    while i < r.inputs.len()
        invariant
            i <= r.inputs@.len(),
            crate::graph::slots_ok(r.inputs@, g.m_count()),
            unit_cost@.len() == g.m_count(),
            cyclic matches Some(v) ==> v@.len() == g.m_count(),
            inputs_cost(*ar, *g, unit_cost@, flags(cyclic), r.inputs@, i as int) == Some(total),
        decreases r.inputs@.len() - i,
    {
        let slot = &r.inputs[i];
        assert(crate::graph::slot_ok(r.inputs@[i as int], g.m_count()));
        match cheapest_alt(ar, g, unit_cost, cyclic, slot) {
            Some((m, q)) => {
                let c = unit_cost[m as usize];
                if !ar.is_finite(c) {
                    proof {
                        inputs_cost_stays_none(
                            *ar,
                            *g,
                            unit_cost@,
                            flags(cyclic),
                            r.inputs@,
                            i + 1,
                            r.inputs@.len() as int,
                        );
                    }
                    return ar.infinity();
                }
                total = ar.plus(total, ar.times(c, mat_norm_qty(ar, g, m, q)));
            },
            None => {
                return ar.infinity();
            },
        }
        i += 1;
    }
    total
}

/// The quantity of `m` among the candidates of a slot.
pub open spec fn qty_among(alts: Seq<(MaterialId, u64)>, m: MaterialId) -> Option<u64>
    decreases alts.len(),
{
    if alts.len() == 0 {
        None
    } else if alts[0].0 == m {
        Some(alts[0].1)
    } else {
        qty_among(alts.drop_first(), m)
    }
}

/// The quantity of `m` in the first slot that holds it.
pub open spec fn qty_in(slots: Seq<Slot>, m: MaterialId) -> Option<u64>
    decreases slots.len(),
{
    if slots.len() == 0 {
        None
    } else {
        match qty_among(slots[0].alts@, m) {
            Some(q) => Some(q),
            None => qty_in(slots.drop_first(), m),
        }
    }
}

/// How much of material `m` a recipe produces, in the first output slot that
/// holds it.
pub fn output_qty_of(r: &RecipeNode, m: MaterialId) -> (q: Option<u64>)
    ensures
        q == qty_in(r.outputs@, m),
{
    let mut s: usize = 0;
    assert(r.outputs@.skip(0) =~= r.outputs@);
    while s < r.outputs.len()
        invariant
            s <= r.outputs@.len(),
            qty_in(r.outputs@, m) == qty_in(r.outputs@.skip(s as int), m),
        decreases r.outputs@.len() - s,
    {
        let alts = &r.outputs[s].alts;
        assert(r.outputs@.skip(s as int).drop_first() =~= r.outputs@.skip(s + 1));
        let mut a: usize = 0;
        assert(alts@.skip(0) =~= alts@);
        while a < alts.len()
            invariant
                a <= alts@.len(),
                s < r.outputs@.len(),
                alts@ == r.outputs@[s as int].alts@,
                qty_in(r.outputs@, m) == qty_in(r.outputs@.skip(s as int), m),
                qty_among(alts@, m) == qty_among(alts@.skip(a as int), m),
            decreases alts@.len() - a,
        {
            let (mm, q): (u32, u64) = alts[a];
            assert(alts@.skip(a as int).drop_first() =~= alts@.skip(a + 1));
            if mm == m {
                return Some(q);
            }
            a += 1;
        }
        s += 1;
    }
    None
}

/// What a unit of each candidate of an output slot costs, when the slot bears
/// the cost `slot_cost`.
pub open spec fn slot_unit_costs<A: Arithmetic>(
    ar: A,
    g: KnowledgeGraph,
    alts: Seq<(MaterialId, u64)>,
    slot_cost: Scalar,
    i: int,
) -> Seq<(MaterialId, Scalar)>
    decreases i,
{
    if i <= 0 {
        Seq::empty()
    } else {
        let rest = slot_unit_costs(ar, g, alts, slot_cost, i - 1);
        let (m, q) = alts[i - 1];
        let nq = mat_norm_spec(ar, g, m, q);
        if ar.lt_spec(ar.ratio_spec(0, 1), nq) {
            rest.push((m, ar.over_spec(slot_cost, nq)))
        } else {
            rest
        }
    }
}

/// What a unit of each product of the first `s` output slots costs.
pub open spec fn output_unit_costs<A: Arithmetic>(
    ar: A,
    g: KnowledgeGraph,
    r: RecipeNode,
    cost: Scalar,
    s: int,
) -> Seq<(MaterialId, Scalar)>
    decreases s,
{
    if s <= 0 {
        Seq::empty()
    } else {
        let alts = r.outputs@[s - 1].alts@;
        let slot_cost = if s == 1 {
            cost
        } else {
            ar.over_spec(cost, ar.ratio_spec(r.outputs@.len() as u64, 1))
        };
        output_unit_costs(ar, g, r, cost, s - 1) + slot_unit_costs(
            ar,
            g,
            alts,
            slot_cost,
            alts.len() as int,
        )
    }
}

/// What a unit of each product of a recipe costs.
///
/// The main output, the first slot, bears the whole cost of the recipe, so that
/// costs are conserved along a chain; sharing it out would let cycles shrink
/// costs to nothing. Each by-product bears the cost divided by the number of
/// output slots, an upper bound.
pub fn recipe_output_unit_costs<A: Arithmetic>(
    ar: &A,
    g: &KnowledgeGraph,
    r: &RecipeNode,
    recipe_cost: Scalar,
) -> (out: Vec<(MaterialId, Scalar)>)
    requires
        crate::graph::slots_ok(r.outputs@, g.m_count()),
    ensures
        !ar.finite_spec(recipe_cost) ==> out@.len() == 0,
        ar.finite_spec(recipe_cost) ==> out@ == output_unit_costs(
            *ar,
            *g,
            *r,
            recipe_cost,
            r.outputs@.len() as int,
        ),
{
    let mut out: Vec<(MaterialId, Scalar)> = Vec::new();
    if !ar.is_finite(recipe_cost) || r.outputs.len() == 0 {
        return out;
    }
    let zero = ar.ratio(0, 1);
    let n: usize = r.outputs.len();
    let byproduct_cost = ar.over(recipe_cost, ar.ratio(n as u64, 1));
    let mut s: usize = 0;
    while s < n
        invariant
            s <= n,
            n == r.outputs@.len(),
            crate::graph::slots_ok(r.outputs@, g.m_count()),
            zero == ar.ratio_spec(0, 1),
            byproduct_cost == ar.over_spec(recipe_cost, ar.ratio_spec(n as u64, 1)),
            out@ == output_unit_costs(*ar, *g, *r, recipe_cost, s as int),
        decreases n - s,
    {
        let slot_cost = if s == 0 {
            recipe_cost
        } else {
            byproduct_cost
        };
        let alts = &r.outputs[s].alts;
        assert(crate::graph::slot_ok(r.outputs@[s as int], g.m_count()));
        let ghost start = out@;
        let mut a: usize = 0;
        assert(out@ =~= start + slot_unit_costs(*ar, *g, alts@, slot_cost, 0));
        while a < alts.len()
            invariant
                a <= alts@.len(),
                s < n,
                n == r.outputs@.len(),
                alts@ == r.outputs@[s as int].alts@,
                crate::graph::slot_ok(r.outputs@[s as int], g.m_count()),
                zero == ar.ratio_spec(0, 1),
                out@ == start + slot_unit_costs(*ar, *g, alts@, slot_cost, a as int),
            decreases alts@.len() - a,
        {
            let (m, q): (u32, u64) = alts[a];
            let nq = mat_norm_qty(ar, g, m, q);
            if ar.lt(zero, nq) {
                out.push((m, ar.over(slot_cost, nq)));
            }
            a += 1;
            assert(out@ =~= start + slot_unit_costs(*ar, *g, alts@, slot_cost, a as int));
        }
        s += 1;
    }
    out
}

/// The smallest depth of the first `i` candidates.
pub open spec fn min_depth(depth: Seq<u32>, alts: Seq<(MaterialId, u64)>, i: int) -> u32
    decreases i,
{
    if i <= 0 {
        u32::MAX
    } else {
        let rest = min_depth(depth, alts, i - 1);
        let d = depth[alts[i - 1].0 as int];
        if d < rest {
            d
        } else {
            rest
        }
    }
}

/// The greatest smallest depth of the first `s` slots; `u32::MAX` where a slot
/// cannot be filled.
pub open spec fn max_depth(depth: Seq<u32>, slots: Seq<Slot>, s: int) -> u32
    decreases s,
{
    if s <= 0 {
        0
    } else {
        let rest = max_depth(depth, slots, s - 1);
        let d = min_depth(depth, slots[s - 1].alts@, slots[s - 1].alts@.len() as int);
        if d > rest {
            d
        } else {
            rest
        }
    }
}

/// The depth of a recipe.
pub open spec fn recipe_depth_spec(depth: Seq<u32>, r: RecipeNode) -> u32 {
    let d = max_depth(depth, r.inputs@, r.inputs@.len() as int);
    if d == u32::MAX {
        u32::MAX
    } else {
        (d + 1) as u32
    }
}

proof fn max_depth_grows(depth: Seq<u32>, slots: Seq<Slot>, s: int, t: int)
    requires
        0 <= s <= t,
    ensures
        max_depth(depth, slots, s) <= max_depth(depth, slots, t),
    decreases t,
{
    if s < t {
        max_depth_grows(depth, slots, s, t - 1);
    }
}

/// The depth of a recipe: one more than the greatest of the smallest depths of
/// its input slots; `u32::MAX` where a slot cannot be filled.
pub fn recipe_depth(depth: &Vec<u32>, r: &RecipeNode) -> (d: u32)
    requires
        crate::graph::slots_ok(r.inputs@, depth@.len() as int),
    ensures
        d == recipe_depth_spec(depth@, *r),
{
    let mut max_in: u32 = 0;
    let mut s: usize = 0;
    while s < r.inputs.len()
        invariant
            s <= r.inputs@.len(),
            crate::graph::slots_ok(r.inputs@, depth@.len() as int),
            max_in == max_depth(depth@, r.inputs@, s as int),
            max_in < u32::MAX,
        decreases r.inputs@.len() - s,
    {
        let alts = &r.inputs[s].alts;
        assert(crate::graph::slot_ok(r.inputs@[s as int], depth@.len() as int));
        let mut min_d: u32 = u32::MAX;
        let mut a: usize = 0;
        while a < alts.len()
            invariant
                a <= alts@.len(),
                s < r.inputs@.len(),
                alts@ == r.inputs@[s as int].alts@,
                crate::graph::slot_ok(r.inputs@[s as int], depth@.len() as int),
                min_d == min_depth(depth@, alts@, a as int),
            decreases alts@.len() - a,
        {
            let d: u32 = depth[alts[a].0 as usize];
            if d < min_d {
                min_d = d;
            }
            a += 1;
        }
        if min_d == u32::MAX {
            proof {
                max_depth_grows(depth@, r.inputs@, s + 1, r.inputs@.len() as int);
            }
            return u32::MAX;
        }
        if min_d > max_in {
            max_in = min_d;
        }
        s += 1;
    }
    max_in + 1
}

/// A cost is smaller, beyond the tolerance; any finite cost is smaller than one
/// that is not finite.
pub open spec fn strictly_less_spec<A: Arithmetic>(ar: A, a: Scalar, b: Scalar) -> bool {
    ar.finite_spec(a) && (!ar.finite_spec(b) || clearly_less_spec(ar, a, b))
}

/// Whether a cost is smaller, beyond the tolerance.
pub fn cost_strictly_less<A: Arithmetic>(ar: &A, a: Scalar, b: Scalar) -> (r: bool)
    ensures
        r == strictly_less_spec(*ar, a, b),
{
    if !ar.is_finite(a) {
        return false;
    }
    if !ar.is_finite(b) {
        return true;
    }
    clearly_less(ar, a, b)
}

/// A recipe needs no higher tier than `max_tier`.
pub open spec fn tier_allowed_spec(g: KnowledgeGraph, r: RecipeId, max_tier: Option<u8>) -> bool {
    match (g.recipes@[r as int].gt, max_tier) {
        (Some(gt), Some(limit)) => match gt.tier_index {
            Some(t) => t <= limit,
            None => true,
        },
        _ => true,
    }
}

/// Whether a recipe can be run with machines up to `max_tier`. Recipes without
/// a tier always can.
pub fn tier_allowed(g: &KnowledgeGraph, rid: RecipeId, max_tier: Option<u8>) -> (r: bool)
    requires
        rid < g.r_count(),
    ensures
        r == tier_allowed_spec(*g, rid, max_tier),
{
    match (&g.recipe(rid).gt, max_tier) {
        (Some(gt), Some(limit)) => match gt.tier_index {
            Some(t) => t <= limit,
            None => true,
        },
        _ => true,
    }
}

/// The candidate that fills a slot is one of its candidates, and every slot
/// with candidates can be filled.
pub proof fn cheapest_is_candidate<A: Arithmetic>(
    ar: A,
    g: KnowledgeGraph,
    unit_cost: Seq<Scalar>,
    cyclic: Option<Seq<bool>>,
    alts: Seq<(MaterialId, u64)>,
    i: int,
)
    requires
        0 <= i <= alts.len(),
    ensures
        cheapest_of(ar, g, unit_cost, cyclic, alts, i) is Some == (i > 0),
        cheapest_of(ar, g, unit_cost, cyclic, alts, i) matches Some(b) ==> alts.contains(b),
    decreases i,
{
    if i > 0 {
        cheapest_is_candidate(ar, g, unit_cost, cyclic, alts, i - 1);
        assert(alts.contains(alts[i - 1]));
    }
}

/// Where some candidate of a slot is within reach, one within reach fills it.
pub proof fn within_reach_comes_first<A: Arithmetic>(
    ar: A,
    g: KnowledgeGraph,
    unit_cost: Seq<Scalar>,
    cyclic: Option<Seq<bool>>,
    alts: Seq<(MaterialId, u64)>,
    i: int,
    j: int,
)
    requires
        0 <= j < i <= alts.len(),
        ar.finite_spec(alt_cost(ar, g, unit_cost, alts[j])),
    ensures
        cheapest_of(ar, g, unit_cost, cyclic, alts, i) matches Some(b) && ar.finite_spec(
            alt_cost(ar, g, unit_cost, b),
        ),
    decreases i,
{
    if j < i - 1 {
        within_reach_comes_first(ar, g, unit_cost, cyclic, alts, i - 1, j);
    }
}

} // verus!

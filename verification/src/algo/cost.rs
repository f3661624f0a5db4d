//! What materials cost: raw material, energy and machine time.
//!
//! A cost has three parts: `material` counts raw items (a bucket of fluid counts
//! as one), `eu` the energy that is consumed (what is generated is not set off,
//! or generators would win everywhere), and `machine` the minutes of machine
//! time. Routes are compared by a weighted sum of the three.
//!
//! Costs are settled component by component, along the topological order. In a
//! component every material is settled once, so that a cycle that multiplies
//! material cannot shrink its own cost:
//!
//! 1. entry prices, from inputs of other components only;
//! 2. rounds inside the component, from what is settled;
//! 3. a component without any entry is a resource of the world: its materials
//!    keep that price and have no recipe.
//!
//! Of tied routes the one that gave the entry price wins, then one that is not
//! recycling, then the shallower one, then one that leaves the component.
use vstd::prelude::*;

use crate::algo::condensation::Condensation;
use crate::graph::KnowledgeGraph;
use crate::list::filled;
use crate::model::{MaterialId, RecipeId, RecipeNode, Slot};
use crate::scalar::{Arithmetic, Scalar};
use crate::text::{same, to_ascii_lowercase, trim};
use crate::util::{clearly_less, mat_norm_qty, output_qty_of, recipe_depth, tied};

verus! {

/// The weights of the parts of a cost.
#[derive(Clone, Copy, Debug, PartialEq, Eq, Structural)]
pub struct CostWeights {
    pub material: Scalar,
    pub eu: Scalar,
    pub machine: Scalar,
}

impl CostWeights {
    /// One raw item weighs as much as ten thousand EU or a minute of a machine.
    pub open spec fn balanced_spec<A: Arithmetic>(ar: A) -> CostWeights {
        CostWeights {
            material: ar.ratio_spec(1, 1),
            eu: ar.ratio_spec(1, 10_000),
            machine: ar.ratio_spec(1, 1),
        }
    }

    /// The weights that are used where none are asked for: one raw item weighs
    /// as much as ten thousand EU or a minute of a machine.
    pub fn balanced<A: Arithmetic>(ar: &A) -> (r: Self)
        ensures
            r == Self::balanced_spec(*ar),
    {
        CostWeights {
            material: ar.ratio(1, 1),
            eu: ar.ratio(1, 10_000),
            machine: ar.ratio(1, 1),
        }
    }

    /// The weights with a name.
    pub open spec fn preset_spec<A: Arithmetic>(ar: A, name: Seq<char>) -> Option<CostWeights> {
        if name == "balanced"@ {
            Some(Self::balanced_spec(ar))
        } else if name == "economy"@ || name == "material"@ {
            Some(
                CostWeights {
                    material: ar.ratio_spec(1, 1),
                    eu: ar.ratio_spec(1, 1_000_000),
                    machine: ar.ratio_spec(1, 10),
                },
            )
        } else if name == "power"@ || name == "eu"@ {
            Some(
                CostWeights {
                    material: ar.ratio_spec(5, 100),
                    eu: ar.ratio_spec(1, 10_000),
                    machine: ar.ratio_spec(1, 10),
                },
            )
        } else if name == "speed"@ || name == "time"@ {
            Some(
                CostWeights {
                    material: ar.ratio_spec(1, 10),
                    eu: ar.ratio_spec(1, 1_000_000),
                    machine: ar.ratio_spec(1, 1),
                },
            )
        } else {
            None
        }
    }

    /// Weights by name: `balanced`, `economy`, `power` or `speed`. White space
    /// around the name and ASCII case do not matter.
    pub fn preset<A: Arithmetic>(ar: &A, name: &str) -> (r: Option<Self>)
        ensures
            r == Self::preset_spec(
                *ar,
                crate::text::trimmed(name@).map_values(|c: char| crate::text::ascii_small(c)),
            ),
    {
        let lower = to_ascii_lowercase(trim(name).as_str());
        let key = lower.as_str();
        if same(key, "balanced") {
            Some(Self::balanced(ar))
        } else if same(key, "economy") || same(key, "material") {
            Some(
                CostWeights {
                    material: ar.ratio(1, 1),
                    eu: ar.ratio(1, 1_000_000),
                    machine: ar.ratio(1, 10),
                },
            )
        } else if same(key, "power") || same(key, "eu") {
            Some(
                CostWeights {
                    material: ar.ratio(5, 100),
                    eu: ar.ratio(1, 10_000),
                    machine: ar.ratio(1, 10),
                },
            )
        } else if same(key, "speed") || same(key, "time") {
            Some(
                CostWeights {
                    material: ar.ratio(1, 10),
                    eu: ar.ratio(1, 1_000_000),
                    machine: ar.ratio(1, 1),
                },
            )
        } else {
            None
        }
    }
}

/// A cost and its parts.
#[derive(Clone, Copy, Debug, PartialEq, Eq, Structural)]
pub struct CostVector {
    pub material: Scalar,
    pub eu: Scalar,
    /// Machine time, in minutes.
    pub machine: Scalar,
}

impl CostVector {
    pub open spec fn inf_spec<A: Arithmetic>(ar: A) -> CostVector {
        CostVector {
            material: ar.infinity_spec(),
            eu: ar.infinity_spec(),
            machine: ar.infinity_spec(),
        }
    }

    /// Out of reach.
    pub fn inf<A: Arithmetic>(ar: &A) -> (r: CostVector)
        ensures
            r == Self::inf_spec(*ar),
    {
        CostVector { material: ar.infinity(), eu: ar.infinity(), machine: ar.infinity() }
    }

    pub open spec fn raw_spec<A: Arithmetic>(ar: A) -> CostVector {
        CostVector {
            material: ar.ratio_spec(1, 1),
            eu: ar.ratio_spec(0, 1),
            machine: ar.ratio_spec(0, 1),
        }
    }

    /// A raw resource, mined or gathered.
    pub fn raw<A: Arithmetic>(ar: &A) -> (r: CostVector)
        ensures
            r == Self::raw_spec(*ar),
    {
        CostVector { material: ar.ratio(1, 1), eu: ar.ratio(0, 1), machine: ar.ratio(0, 1) }
    }

    pub open spec fn finite_spec<A: Arithmetic>(self, ar: A) -> bool {
        ar.finite_spec(self.material) && ar.finite_spec(self.eu) && ar.finite_spec(self.machine)
    }

    pub fn is_finite<A: Arithmetic>(&self, ar: &A) -> (r: bool)
        ensures
            r == self.finite_spec(*ar),
    {
        ar.is_finite(self.material) && ar.is_finite(self.eu) && ar.is_finite(self.machine)
    }

    pub open spec fn score_spec<A: Arithmetic>(self, ar: A, w: CostWeights) -> Scalar {
        ar.plus_spec(
            ar.plus_spec(
                ar.times_spec(w.material, self.material),
                ar.times_spec(w.eu, self.eu),
            ),
            ar.times_spec(w.machine, self.machine),
        )
    }

    /// The weighted sum of the parts.
    pub fn score<A: Arithmetic>(&self, ar: &A, w: &CostWeights) -> (r: Scalar)
        ensures
            r == self.score_spec(*ar, *w),
    {
        ar.plus(
            ar.plus(ar.times(w.material, self.material), ar.times(w.eu, self.eu)),
            ar.times(w.machine, self.machine),
        )
    }

    pub open spec fn add_spec<A: Arithmetic>(self, ar: A, o: CostVector) -> CostVector {
        CostVector {
            material: ar.plus_spec(self.material, o.material),
            eu: ar.plus_spec(self.eu, o.eu),
            machine: ar.plus_spec(self.machine, o.machine),
        }
    }

    pub fn add<A: Arithmetic>(self, ar: &A, o: CostVector) -> (r: CostVector)
        ensures
            r == self.add_spec(*ar, o),
    {
        CostVector {
            material: ar.plus(self.material, o.material),
            eu: ar.plus(self.eu, o.eu),
            machine: ar.plus(self.machine, o.machine),
        }
    }

    pub open spec fn scale_spec<A: Arithmetic>(self, ar: A, k: Scalar) -> CostVector {
        CostVector {
            material: ar.times_spec(self.material, k),
            eu: ar.times_spec(self.eu, k),
            machine: ar.times_spec(self.machine, k),
        }
    }

    pub fn scale<A: Arithmetic>(self, ar: &A, k: Scalar) -> (r: CostVector)
        ensures
            r == self.scale_spec(*ar, k),
    {
        CostVector {
            material: ar.times(self.material, k),
            eu: ar.times(self.eu, k),
            machine: ar.times(self.machine, k),
        }
    }

    pub open spec fn per_unit_spec<A: Arithmetic>(self, ar: A, nq: Scalar) -> CostVector {
        if ar.lt_spec(ar.ratio_spec(0, 1), nq) {
            self.scale_spec(ar, ar.over_spec(ar.ratio_spec(1, 1), nq))
        } else {
            Self::inf_spec(ar)
        }
    }

    /// The cost of a unit, where `nq` units are made; out of reach where none
    /// are.
    pub fn per_unit<A: Arithmetic>(self, ar: &A, nq: Scalar) -> (r: CostVector)
        ensures
            r == self.per_unit_spec(*ar, nq),
    {
        if ar.lt(ar.ratio(0, 1), nq) {
            self.scale(ar, ar.over(ar.ratio(1, 1), nq))
        } else {
            Self::inf(ar)
        }
    }
}

/// What one operation of a recipe costs apart from its inputs. Generated energy
/// is not set off.
pub open spec fn own_cost<A: Arithmetic>(ar: A, r: RecipeNode) -> CostVector {
    match r.gt {
        Some(gt) => CostVector {
            material: ar.ratio_spec(0, 1),
            eu: if gt.consumes_spec() { gt.total_eu } else { ar.ratio_spec(0, 1) },
            machine: ar.ratio_spec(gt.duration_ticks as u64, 1200),
        },
        None => CostVector {
            material: ar.ratio_spec(0, 1),
            eu: ar.ratio_spec(0, 1),
            machine: ar.ratio_spec(0, 1),
        },
    }
}

fn recipe_const_vec<A: Arithmetic>(ar: &A, r: &RecipeNode) -> (c: CostVector)
    ensures
        c == own_cost(*ar, *r),
{
    match &r.gt {
        Some(gt) => CostVector {
            material: ar.ratio(0, 1),
            eu: if gt.consumes_energy() {
                gt.total_eu
            } else {
                ar.ratio(0, 1)
            },
            machine: ar.ratio(gt.duration_ticks as u64, 1200),
        },
        None => CostVector { material: ar.ratio(0, 1), eu: ar.ratio(0, 1), machine: ar.ratio(0, 1) },
    }
}

/// Which inputs a price may rest on.
pub enum Allowed {
    /// Any material of finite cost.
    Any,
    /// Materials whose cost is settled.
    Settled(Seq<bool>),
    /// Materials whose cost is settled, of other components than the given one.
    Outside(Seq<bool>, Seq<u32>, u32),
}

impl Allowed {
    pub open spec fn allows(self, m: MaterialId) -> bool {
        match self {
            Allowed::Any => true,
            Allowed::Settled(s) => s[m as int],
            Allowed::Outside(s, of, c) => s[m as int] && of[m as int] != c,
        }
    }
}

#[derive(Clone, Copy)]
enum Usable<'a> {
    Any,
    Settled(&'a Vec<bool>),
    Outside(&'a Vec<bool>, &'a Vec<u32>, u32),
}

impl<'a> Usable<'a> {
    spec fn allowed(self) -> Allowed {
        match self {
            Usable::Any => Allowed::Any,
            Usable::Settled(s) => Allowed::Settled(s@),
            Usable::Outside(s, of, c) => Allowed::Outside(s@, of@, c),
        }
    }

    spec fn fits(self, n: int) -> bool {
        match self {
            Usable::Any => true,
            Usable::Settled(s) => s@.len() == n,
            Usable::Outside(s, of, c) => s@.len() == n && of@.len() == n,
        }
    }

    fn allows(self, m: MaterialId) -> (r: bool)
        requires
            self.fits(m as int + 1) || exists|n: int| m < n && #[trigger] self.fits(n),
        ensures
            r == self.allowed().allows(m),
    {
        match self {
            Usable::Any => true,
            Usable::Settled(s) => s[m as usize],
            Usable::Outside(s, of, c) => s[m as usize] && of[m as usize] != c,
        }
    }
}

/// The cheapest of the first `i` candidates that may be used and have a finite
/// cost, with its score.
pub open spec fn slot_best<A: Arithmetic>(
    ar: A,
    g: KnowledgeGraph,
    costs: Seq<CostVector>,
    w: CostWeights,
    u: Allowed,
    alts: Seq<(MaterialId, u64)>,
    i: int,
) -> (Option<CostVector>, Scalar)
    decreases i,
{
    if i <= 0 {
        (None, ar.infinity_spec())
    } else {
        let (best, score) = slot_best(ar, g, costs, w, u, alts, i - 1);
        let (m, q) = alts[i - 1];
        let v = costs[m as int];
        let c = v.scale_spec(ar, crate::util::mat_norm_spec(ar, g, m, q));
        if u.allows(m) && v.finite_spec(ar) && ar.lt_spec(c.score_spec(ar, w), score) {
            (Some(c), c.score_spec(ar, w))
        } else {
            (best, score)
        }
    }
}

/// What a recipe and the first `s` of its input slots cost.
pub open spec fn slots_cost<A: Arithmetic>(
    ar: A,
    g: KnowledgeGraph,
    costs: Seq<CostVector>,
    w: CostWeights,
    u: Allowed,
    r: RecipeNode,
    s: int,
) -> Option<CostVector>
    decreases s,
{
    if s <= 0 {
        Some(own_cost(ar, r))
    } else {
        let alts = r.inputs@[s - 1].alts@;
        match (
            slots_cost(ar, g, costs, w, u, r, s - 1),
            slot_best(ar, g, costs, w, u, alts, alts.len() as int).0,
        ) {
            (Some(sum), Some(best)) => Some(sum.add_spec(ar, best)),
            _ => None,
        }
    }
}

/// What one operation of a recipe costs, with all its inputs.
pub open spec fn operation_cost<A: Arithmetic>(
    ar: A,
    g: KnowledgeGraph,
    costs: Seq<CostVector>,
    w: CostWeights,
    u: Allowed,
    r: RecipeNode,
    penalty: Scalar,
) -> Option<CostVector> {
    match slots_cost(ar, g, costs, w, u, r, r.inputs@.len() as int) {
        Some(sum) => Some(sum.scale_spec(ar, penalty)),
        None => None,
    }
}

proof fn slots_cost_stays_none<A: Arithmetic>(
    ar: A,
    g: KnowledgeGraph,
    costs: Seq<CostVector>,
    w: CostWeights,
    u: Allowed,
    r: RecipeNode,
    s: int,
    t: int,
)
    requires
        0 <= s <= t,
        slots_cost(ar, g, costs, w, u, r, s) is None,
    ensures
        slots_cost(ar, g, costs, w, u, r, t) is None,
    decreases t,
{
    if s < t {
        slots_cost_stays_none(ar, g, costs, w, u, r, s, t - 1);
    }
}

/// The cheapest usable candidate of a slot.
fn slot_cost<A: Arithmetic>(
    ar: &A,
    g: &KnowledgeGraph,
    costs: &Vec<CostVector>,
    w: &CostWeights,
    usable: Usable,
    slot: &Slot,
) -> (r: Option<CostVector>)
    requires
        crate::graph::slot_ok(*slot, g.m_count()),
        costs@.len() == g.m_count(),
        usable.fits(g.m_count()),
    ensures
        r == slot_best(
            *ar,
            *g,
            costs@,
            *w,
            usable.allowed(),
            slot.alts@,
            slot.alts@.len() as int,
        ).0,
{
    let mut best: Option<CostVector> = None;
    let mut best_score = ar.infinity();
    let mut i: usize = 0;
    while i < slot.alts.len()
        invariant
            i <= slot.alts@.len(),
            crate::graph::slot_ok(*slot, g.m_count()),
            costs@.len() == g.m_count(),
            usable.fits(g.m_count()),
            (best, best_score) == slot_best(
                *ar,
                *g,
                costs@,
                *w,
                usable.allowed(),
                slot.alts@,
                i as int,
            ),
        decreases slot.alts@.len() - i,
    {
        let (m, q): (u32, u64) = slot.alts[i];
        if usable.allows(m) {
            let v = costs[m as usize];
            if v.is_finite(ar) {
                let c = v.scale(ar, mat_norm_qty(ar, g, m, q));
                let s = c.score(ar, w);
                if ar.lt(s, best_score) {
                    best_score = s;
                    best = Some(c);
                }
            }
        }
        i += 1;
    }
    best
}

/// What one operation of a recipe costs: the cheapest usable candidates of its
/// input slots and its own cost, times the penalty.
fn recipe_cost_vec<A: Arithmetic>(
    ar: &A,
    g: &KnowledgeGraph,
    costs: &Vec<CostVector>,
    w: &CostWeights,
    r: &RecipeNode,
    penalty: Scalar,
    usable: Usable,
) -> (c: Option<CostVector>)
    requires
        crate::graph::slots_ok(r.inputs@, g.m_count()),
        costs@.len() == g.m_count(),
        usable.fits(g.m_count()),
    ensures
        c == operation_cost(*ar, *g, costs@, *w, usable.allowed(), *r, penalty),
{
    let mut sum = recipe_const_vec(ar, r);
    let mut s: usize = 0;
    while s < r.inputs.len()
        invariant
            s <= r.inputs@.len(),
            crate::graph::slots_ok(r.inputs@, g.m_count()),
            costs@.len() == g.m_count(),
            usable.fits(g.m_count()),
            slots_cost(*ar, *g, costs@, *w, usable.allowed(), *r, s as int) == Some(sum),
        decreases r.inputs@.len() - s,
    {
        assert(crate::graph::slot_ok(r.inputs@[s as int], g.m_count()));
        match slot_cost(ar, g, costs, w, usable, &r.inputs[s]) {
            Some(best) => {
                sum = sum.add(ar, best);
            },
            None => {
                proof {
                    slots_cost_stays_none(
                        *ar,
                        *g,
                        costs@,
                        *w,
                        usable.allowed(),
                        *r,
                        s + 1,
                        r.inputs@.len() as int,
                    );
                }
                return None;
            },
        }
        s += 1;
    }
    Some(sum.scale(ar, penalty))
}

/// What a unit of `m` costs when a recipe makes it.
pub open spec fn route_cost<A: Arithmetic>(
    ar: A,
    g: KnowledgeGraph,
    costs: Seq<CostVector>,
    w: CostWeights,
    u: Allowed,
    r: RecipeNode,
    m: MaterialId,
    penalty: Scalar,
) -> Option<CostVector> {
    match crate::util::qty_in(r.outputs@, m) {
        Some(q) => {
            let nq = crate::util::mat_norm_spec(ar, g, m, q);
            if ar.le_spec(nq, ar.ratio_spec(0, 1)) {
                None
            } else {
                match operation_cost(ar, g, costs, w, u, r, penalty) {
                    Some(rc) => Some(rc.per_unit_spec(ar, nq)),
                    None => None,
                }
            }
        },
        None => None,
    }
}

fn unit_cost_of_recipe<A: Arithmetic>(
    ar: &A,
    g: &KnowledgeGraph,
    costs: &Vec<CostVector>,
    w: &CostWeights,
    r: &RecipeNode,
    m: MaterialId,
    penalty: Scalar,
    usable: Usable,
) -> (c: Option<CostVector>)
    requires
        crate::graph::slots_ok(r.inputs@, g.m_count()),
        m < g.m_count(),
        costs@.len() == g.m_count(),
        usable.fits(g.m_count()),
    ensures
        c == route_cost(*ar, *g, costs@, *w, usable.allowed(), *r, m, penalty),
{
    let out_q: u64 = match output_qty_of(r, m) {
        Some(q) => q,
        None => {
            return None;
        },
    };
    let nq = mat_norm_qty(ar, g, m, out_q);
    if ar.le(nq, ar.ratio(0, 1)) {
        return None;
    }
    match recipe_cost_vec(ar, g, costs, w, r, penalty, usable) {
        Some(rc) => Some(rc.per_unit(ar, nq)),
        None => None,
    }
}

/// Recycling counts four times.
pub open spec fn penalty_spec<A: Arithmetic>(ar: A, g: KnowledgeGraph, r: RecipeId) -> Scalar {
    if g.recycling_spec(r) {
        ar.ratio_spec(4, 1)
    } else {
        ar.ratio_spec(1, 1)
    }
}

fn penalty_of<A: Arithmetic>(ar: &A, g: &KnowledgeGraph, rid: RecipeId) -> (r: Scalar)
    requires
        g.closed(),
        rid < g.r_count(),
    ensures
        r == penalty_spec(*ar, *g, rid),
{
    if g.is_recycling(rid) {
        ar.ratio(4, 1)
    } else {
        ar.ratio(1, 1)
    }
}

/// A route: its cost, its recipe and the depth of the recipe.
#[derive(Clone, Copy)]
pub struct Route {
    pub cost: CostVector,
    pub recipe: Option<RecipeId>,
    pub depth: u32,
}

/// A candidate beats the best route so far: it is clearly cheaper, or ties and
/// is not recycling while the other is, or else is shallower.
pub open spec fn beats<A: Arithmetic>(
    ar: A,
    g: KnowledgeGraph,
    w: CostWeights,
    cost: CostVector,
    rid: RecipeId,
    depth: u32,
    best: Route,
) -> bool {
    if !cost.finite_spec(ar) {
        false
    } else if !best.cost.finite_spec(ar) {
        true
    } else {
        let cs = cost.score_spec(ar, w);
        let bs = best.cost.score_spec(ar, w);
        if crate::util::clearly_less_spec(ar, cs, bs) {
            true
        } else if crate::util::tied_spec(ar, cs, bs) {
            match best.recipe {
                Some(br) => if g.recycling_spec(rid) != g.recycling_spec(br) {
                    g.recycling_spec(br) && !g.recycling_spec(rid)
                } else {
                    depth < best.depth
                },
                None => false,
            }
        } else {
            false
        }
    }
}

fn better_candidate<A: Arithmetic>(
    ar: &A,
    g: &KnowledgeGraph,
    w: &CostWeights,
    cost: CostVector,
    rid: RecipeId,
    depth: u32,
    best: &Route,
) -> (r: bool)
    requires
        g.closed(),
        rid < g.r_count(),
        best.recipe matches Some(b) ==> b < g.r_count(),
    ensures
        r == beats(*ar, *g, *w, cost, rid, depth, *best),
{
    if !cost.is_finite(ar) {
        return false;
    }
    if !best.cost.is_finite(ar) {
        return true;
    }
    let cs = cost.score(ar, w);
    let bs = best.cost.score(ar, w);
    if clearly_less(ar, cs, bs) {
        return true;
    }
    if tied(ar, cs, bs) {
        if let Some(br) = best.recipe {
            let cand_rec = g.is_recycling(rid);
            let best_rec = g.is_recycling(br);
            if cand_rec != best_rec {
                return best_rec && !cand_rec;
            }
            if depth != best.depth {
                return depth < best.depth;
            }
        }
    }
    false
}

/// Depths after a recipe of depth `rd` was found to produce the slots.
pub open spec fn lowered(depth: Seq<u32>, slots: Seq<Slot>, rd: u32) -> Seq<u32> {
    Seq::new(
        depth.len(),
        |m: int|
            if crate::graph::mentions(slots, m as u32) && rd < depth[m] {
                rd
            } else {
                depth[m]
            },
    )
}

/// Depths after the first `i` recipes were looked at.
pub open spec fn sweep_to(g: KnowledgeGraph, depth: Seq<u32>, i: int) -> Seq<u32>
    decreases i,
{
    if i <= 0 {
        depth
    } else {
        let d = sweep_to(g, depth, i - 1);
        let r = g.recipes@[i - 1];
        if g.plannable@[i - 1] {
            lowered(d, r.outputs@, crate::util::recipe_depth_spec(d, r))
        } else {
            d
        }
    }
}

/// Depths after all recipes were looked at.
pub open spec fn sweep(g: KnowledgeGraph, depth: Seq<u32>) -> Seq<u32> {
    sweep_to(g, depth, g.r_count())
}

/// Depths after sweeps until nothing changes, at most `k`; how many there were,
/// and whether nothing changed any more.
pub open spec fn sweeps(g: KnowledgeGraph, depth: Seq<u32>, k: nat) -> (Seq<u32>, nat, bool)
    decreases k,
{
    if k == 0 {
        (depth, 0, false)
    } else {
        let d = sweep(g, depth);
        if d == depth {
            (d, 1, true)
        } else {
            let (e, n, c) = sweeps(g, d, (k - 1) as nat);
            (e, n + 1, c)
        }
    }
}

/// Depths before the first sweep: what has to come from outside has depth zero.
pub open spec fn first_depths(g: KnowledgeGraph) -> Seq<u32> {
    Seq::new(
        g.m_count() as nat,
        |m: int|
            if g.source_spec(m as u32) {
                0u32
            } else {
                u32::MAX
            },
    )
}

/// Lowers the depths of what a recipe of depth `rd` produces; says whether any
/// was lowered.
fn lower(depth: &mut Vec<u32>, slots: &Vec<Slot>, rd: u32) -> (changed: bool)
    requires
        old(depth)@.len() <= u32::MAX,
        crate::graph::slots_ok(slots@, old(depth)@.len() as int),
    ensures
        final(depth)@ == lowered(old(depth)@, slots@, rd),
        changed == (final(depth)@ != old(depth)@),
{
    let ghost start = depth@;
    let mut changed = false;
    let mut s: usize = 0;
    while s < slots.len()
        invariant
            s <= slots@.len(),
            start.len() <= u32::MAX,
            crate::graph::slots_ok(slots@, start.len() as int),
            depth@.len() == start.len(),
            forall|m: int|
                0 <= m < start.len() ==> #[trigger] depth@[m] == start[m] || (depth@[m] == rd && rd
                    < start[m] && crate::graph::mentions(slots@, m as u32)),
            forall|t: int, a: int|
                0 <= t < s && 0 <= a < slots@[t].alts@.len() ==> depth@[(
                #[trigger] slots@[t].alts@[a]).0 as int] <= rd,
            !changed ==> depth@ == start,
            changed ==> exists|m: int| 0 <= m < start.len() && #[trigger] depth@[m] != start[m],
        decreases slots@.len() - s,
    {
        let alts = &slots[s].alts;
        assert(crate::graph::slot_ok(slots@[s as int], start.len() as int));
        let mut a: usize = 0;
        while a < alts.len()
            invariant
                s < slots@.len(),
                alts@ == slots@[s as int].alts@,
                a <= alts@.len(),
                start.len() <= u32::MAX,
                crate::graph::slot_ok(slots@[s as int], start.len() as int),
                crate::graph::slots_ok(slots@, start.len() as int),
                depth@.len() == start.len(),
                forall|m: int|
                    0 <= m < start.len() ==> #[trigger] depth@[m] == start[m] || (depth@[m] == rd
                        && rd < start[m] && crate::graph::mentions(slots@, m as u32)),
                forall|t: int, b: int|
                    (0 <= t < s && 0 <= b < slots@[t].alts@.len()) || (t == s && 0 <= b < a)
                        ==> depth@[(#[trigger] slots@[t].alts@[b]).0 as int] <= rd,
                !changed ==> depth@ == start,
                changed ==> exists|m: int|
                    0 <= m < start.len() && #[trigger] depth@[m] != start[m],
            decreases alts@.len() - a,
        {
            let m: u32 = alts[a].0;
            let ghost before = depth@;
            assert(crate::graph::mentions_at(slots@, m, s as int, a as int));
            assert(m as int as u32 == m);
            if rd < depth[m as usize] {
                depth[m as usize] = rd;
                changed = true;
                assert(depth@[m as int] != start[m as int]);
            }
            assert forall|t: int, b: int|
                (0 <= t < s && 0 <= b < slots@[t].alts@.len()) || (t == s && 0 <= b < a
                    + 1) implies depth@[(#[trigger] slots@[t].alts@[b]).0 as int] <= rd by {
                assert(crate::graph::slot_ok(slots@[t], start.len() as int));
            }
            a += 1;
        }
        s += 1;
    }
    assert forall|m: int| 0 <= m < start.len() implies #[trigger] depth@[m] == lowered(
        start,
        slots@,
        rd,
    )[m] by {
        if crate::graph::mentions(slots@, m as u32) {
            let (t, a) = choose|t: int, a: int| #[trigger]
                crate::graph::mentions_at(slots@, m as u32, t, a);
            assert(depth@[slots@[t].alts@[a].0 as int] <= rd);
        }
    }
    assert(depth@ =~= lowered(start, slots@, rd));
    changed
}

/// Looks at every recipe once; says whether any depth was lowered.
fn sweep_once(g: &KnowledgeGraph, depth: &mut Vec<u32>) -> (changed: bool)
    requires
        g.wf(),
        old(depth)@.len() == g.m_count(),
    ensures
        final(depth)@ == sweep(*g, old(depth)@),
        final(depth)@.len() == g.m_count(),
        changed == (final(depth)@ != old(depth)@),
{
    let ghost start = depth@;
    let mut changed = false;
    let mut i: usize = 0;
    while i < g.recipes.len()
        invariant
            i <= g.r_count(),
            g.wf(),
            start.len() == g.m_count(),
            depth@.len() == g.m_count(),
            depth@ == sweep_to(*g, start, i as int),
            forall|m: int| 0 <= m < start.len() ==> #[trigger] depth@[m] <= start[m],
            !changed ==> depth@ == start,
            changed ==> exists|m: int| 0 <= m < start.len() && #[trigger] depth@[m] != start[m],
        decreases g.r_count() - i,
    {
        let r = &g.recipes[i];
        let ghost before = depth@;
        if g.is_plannable(i as u32) {
            let rd: u32 = recipe_depth(depth, r);
            let c = lower(depth, &r.outputs, rd);
            proof {
                assert forall|m: int| 0 <= m < start.len() implies #[trigger] depth@[m]
                    <= before[m] by {}
                if c {
                    assert(!(depth@ =~= before));
                    let m = choose|m: int| 0 <= m < depth@.len() && depth@[m] != before[m];
                    assert(depth@[m] < before[m] && before[m] <= start[m]);
                    assert(depth@[m] != start[m]);
                } else if changed {
                    let m = choose|m: int|
                        0 <= m < start.len() && #[trigger] before[m] != start[m];
                    assert(depth@[m] != start[m]);
                }
            }
            if c {
                changed = true;
            }
        }
        i += 1;
    }
    changed
}

/// Where the depths stopped changing, no recipe offers less: every product of a
/// recipe is at most as deep as the recipe.
pub proof fn settled_depths(g: KnowledgeGraph, depth: Seq<u32>, r: int, m: MaterialId)
    requires
        g.wf(),
        depth.len() == g.m_count(),
        sweep(g, depth) == depth,
        0 <= r < g.r_count(),
        g.plannable@[r],
        m < g.m_count(),
        g.produces(r, m),
    ensures
        depth[m as int] <= crate::util::recipe_depth_spec(depth, g.recipes@[r]),
{
    sweep_falls(g, depth, r, g.r_count());
    sweep_falls(g, depth, r + 1, g.r_count());
    sweep_falls(g, depth, 0, r);
    let d = sweep_to(g, depth, r);
    assert(d =~= depth);
    assert(sweep_to(g, depth, r + 1)[m as int] == depth[m as int]);
    assert(m as int as u32 == m);
}

/// Sweeping only lowers depths.
proof fn sweep_falls(g: KnowledgeGraph, depth: Seq<u32>, i: int, j: int)
    requires
        0 <= i <= j,
    ensures
        sweep_to(g, depth, j).len() == depth.len(),
        forall|m: int|
            0 <= m < depth.len() ==> #[trigger] sweep_to(g, depth, j)[m] <= sweep_to(
                g,
                depth,
                i,
            )[m],
    decreases j,
{
    if i < j {
        sweep_falls(g, depth, i, j - 1);
    } else if j > 0 {
        sweep_falls(g, depth, j - 1, j - 1);
    }
}

/// Costs while they are being settled.
pub struct Prices {
    pub costs: Seq<CostVector>,
    pub settled: Seq<bool>,
    /// The recipe that gave a material its price.
    pub anchor: Seq<Option<RecipeId>>,
}

impl Prices {
    /// Material `m` is settled at the cost of a route.
    pub open spec fn settle(self, m: MaterialId, route: Route) -> Prices {
        Prices {
            costs: self.costs.update(m as int, route.cost),
            settled: self.settled.update(m as int, true),
            anchor: self.anchor.update(m as int, route.recipe),
        }
    }

    /// Material `m` was settled as a raw resource: by no recipe.
    pub open spec fn fixed(self, m: MaterialId) -> bool {
        self.settled[m as int] && self.anchor[m as int] is None
    }

    /// Material `m` is settled as a raw resource.
    pub open spec fn settle_raw<A: Arithmetic>(self, ar: A, m: MaterialId) -> Prices {
        Prices {
            costs: self.costs.update(m as int, CostVector::raw_spec(ar)),
            settled: self.settled.update(m as int, true),
            anchor: self.anchor,
        }
    }
}

/// The best recipe of each material while recipes are compared.
pub struct Picks {
    pub best: Seq<Option<RecipeId>>,
    pub score: Seq<Scalar>,
    pub costs: Seq<CostVector>,
}

/// What prices are worked out from.
pub struct Setting<'a, A> {
    pub ar: &'a A,
    pub g: &'a KnowledgeGraph,
    pub cond: &'a Condensation,
    pub depth: &'a Vec<u32>,
    pub w: CostWeights,
}

impl<'a, A: Arithmetic> Setting<'a, A> {
    pub open spec fn ok(self) -> bool {
        &&& self.g.wf()
        &&& self.cond.fits(*self.g)
        &&& self.depth@.len() == self.g.m_count()
    }

    pub open spec fn no_route(self) -> Route {
        Route { cost: CostVector::inf_spec(*self.ar), recipe: None, depth: u32::MAX }
    }

    /// The best of the first `i` producers of `m`.
    pub open spec fn best_route(self, costs: Seq<CostVector>, u: Allowed, m: MaterialId, i: int) -> Route
        decreases i,
    {
        if i <= 0 {
            self.no_route()
        } else {
            let best = self.best_route(costs, u, m, i - 1);
            let rid = self.g.producers@[m as int]@[i - 1];
            let r = self.g.recipes@[rid as int];
            let d = crate::util::recipe_depth_spec(self.depth@, r);
            if self.g.plannable@[rid as int] && r.inputs@.len() > 0 {
                match route_cost(
                    *self.ar,
                    *self.g,
                    costs,
                    self.w,
                    u,
                    r,
                    m,
                    penalty_spec(*self.ar, *self.g, rid),
                ) {
                    Some(c) => if beats(*self.ar, *self.g, self.w, c, rid, d, best) {
                        Route { cost: c, recipe: Some(rid), depth: d }
                    } else {
                        best
                    },
                    None => best,
                }
            } else {
                best
            }
        }
    }

    /// The best route to `m`.
    pub open spec fn route(self, costs: Seq<CostVector>, u: Allowed, m: MaterialId) -> Route {
        self.best_route(costs, u, m, self.g.producers@[m as int]@.len() as int)
    }

    /// The entry price of a material: what has to come from outside is raw, and
    /// anything else rests on settled inputs of other components.
    pub open spec fn entry(self, p: Prices, comp: u32, m: MaterialId) -> Prices {
        if self.g.source_spec(m) {
            p.settle_raw(*self.ar, m)
        } else {
            let best = self.route(
                p.costs,
                Allowed::Outside(p.settled, self.cond.comp_of_material@, comp),
                m,
            );
            if best.cost.finite_spec(*self.ar) {
                p.settle(m, best)
            } else {
                p
            }
        }
    }

    /// Entry prices of the first `i` materials of a component.
    pub open spec fn entries(self, p: Prices, comp: u32, i: int) -> Prices
        decreases i,
    {
        if i <= 0 {
            p
        } else {
            self.entry(
                self.entries(p, comp, i - 1),
                comp,
                self.cond.materials_in_comp@[comp as int]@[i - 1],
            )
        }
    }

    /// A material that is not settled is settled from what is, if it can be.
    pub open spec fn inner(self, p: Prices, m: MaterialId) -> Prices {
        if p.settled[m as int] {
            p
        } else {
            let best = self.route(p.costs, Allowed::Settled(p.settled), m);
            if best.cost.finite_spec(*self.ar) {
                p.settle(m, best)
            } else {
                p
            }
        }
    }

    /// A round over the first `i` materials of a component.
    pub open spec fn round_to(self, p: Prices, comp: u32, i: int) -> Prices
        decreases i,
    {
        if i <= 0 {
            p
        } else {
            self.inner(
                self.round_to(p, comp, i - 1),
                self.cond.materials_in_comp@[comp as int]@[i - 1],
            )
        }
    }

    pub open spec fn round(self, p: Prices, comp: u32) -> Prices {
        self.round_to(p, comp, self.cond.materials_in_comp@[comp as int]@.len() as int)
    }

    /// Rounds until nothing more is settled, at most `k`.
    pub open spec fn rounds(self, p: Prices, comp: u32, k: nat) -> Prices
        decreases k,
    {
        if k == 0 {
            p
        } else {
            let q = self.round(p, comp);
            if q.settled == p.settled {
                q
            } else {
                self.rounds(q, comp, (k - 1) as nat)
            }
        }
    }

    /// The first `i` materials of a component become raw resources.
    pub open spec fn all_raw(self, p: Prices, comp: u32, i: int) -> Prices
        decreases i,
    {
        if i <= 0 {
            p
        } else {
            self.all_raw(p, comp, i - 1).settle_raw(
                *self.ar,
                self.cond.materials_in_comp@[comp as int]@[i - 1],
            )
        }
    }

    /// Some material of the component is settled.
    pub open spec fn any_settled(self, p: Prices, comp: u32) -> bool {
        exists|i: int|
            0 <= i < self.cond.materials_in_comp@[comp as int]@.len() && p.settled[(
            #[trigger] self.cond.materials_in_comp@[comp as int]@[i]) as int]
    }

    /// Prices after a component was worked out.
    pub open spec fn component(self, p: Prices, comp: u32) -> Prices {
        let n = self.cond.materials_in_comp@[comp as int]@.len() as int;
        let q = self.rounds(self.entries(p, comp, n), comp, 64);
        if n == 0 {
            p
        } else if self.any_settled(q, comp) {
            q
        } else {
            self.all_raw(q, comp, n)
        }
    }

    /// Prices after the first `i` components of the topological order.
    pub open spec fn components(self, p: Prices, i: int) -> Prices
        decreases i,
    {
        if i <= 0 {
            p
        } else {
            self.component(self.components(p, i - 1), self.cond.topo_order@[i - 1])
        }
    }

    /// Prices before any component.
    pub open spec fn unpriced(self) -> Prices {
        let n = self.g.m_count() as nat;
        Prices {
            costs: Seq::new(n, |m: int| CostVector::inf_spec(*self.ar)),
            settled: Seq::new(n, |m: int| false),
            anchor: Seq::new(n, |m: int| None),
        }
    }

    pub open spec fn same_comp(self, r: RecipeId, m: MaterialId) -> bool {
        self.cond.comp_of_recipe@[r as int] == self.cond.comp_of_material@[m as int]
    }

    /// Recipe `rid` replaces the recipe `cur` of `m`: it is clearly cheaper, or
    /// ties and gave the price, or else is not recycling, or else is shallower,
    /// or else leaves the component.
    pub open spec fn replaces(
        self,
        anchor: Option<RecipeId>,
        m: MaterialId,
        rid: RecipeId,
        score: Scalar,
        cur: RecipeId,
        cur_score: Scalar,
    ) -> bool {
        let d = crate::util::recipe_depth_spec(self.depth@, self.g.recipes@[rid as int]);
        let cd = crate::util::recipe_depth_spec(self.depth@, self.g.recipes@[cur as int]);
        if crate::util::clearly_less_spec(*self.ar, score, cur_score) {
            true
        } else if crate::util::tied_spec(*self.ar, score, cur_score) {
            if (anchor == Some(rid)) != (anchor == Some(cur)) {
                anchor == Some(rid)
            } else if self.g.recycling_spec(rid) != self.g.recycling_spec(cur) {
                self.g.recycling_spec(cur)
            } else if d != cd {
                d < cd
            } else {
                self.same_comp(cur, m) && !self.same_comp(rid, m)
            }
        } else {
            false
        }
    }

    /// The picks after a recipe was offered for one of its products.
    pub open spec fn offer(
        self,
        base: Prices,
        p: Picks,
        rid: RecipeId,
        rc: CostVector,
        alt: (MaterialId, u64),
    ) -> Picks {
        let m = alt.0;
        let nq = crate::util::mat_norm_spec(*self.ar, *self.g, m, alt.1);
        let c = rc.per_unit_spec(*self.ar, nq);
        let cs = c.score_spec(*self.ar, self.w);
        if not_positive(*self.ar, nq) || base.fixed(m) {
            p
        } else {
            let better = match p.best[m as int] {
                None => true,
                Some(cur) => self.replaces(
                    base.anchor[m as int],
                    m,
                    rid,
                    cs,
                    cur,
                    p.score[m as int],
                ),
            };
            if better {
                Picks {
                    best: p.best.update(m as int, Some(rid)),
                    score: p.score.update(m as int, cs),
                    costs: p.costs.update(m as int, c),
                }
            } else {
                p
            }
        }
    }

    pub open spec fn offer_alts(
        self,
        base: Prices,
        p: Picks,
        rid: RecipeId,
        rc: CostVector,
        alts: Seq<(MaterialId, u64)>,
        i: int,
    ) -> Picks
        decreases i,
    {
        if i <= 0 {
            p
        } else {
            self.offer(
                base,
                self.offer_alts(base, p, rid, rc, alts, i - 1),
                rid,
                rc,
                alts[i - 1],
            )
        }
    }

    pub open spec fn offer_slots(
        self,
        base: Prices,
        p: Picks,
        rid: RecipeId,
        rc: CostVector,
        slots: Seq<Slot>,
        s: int,
    ) -> Picks
        decreases s,
    {
        if s <= 0 {
            p
        } else {
            let alts = slots[s - 1].alts@;
            self.offer_alts(
                base,
                self.offer_slots(base, p, rid, rc, slots, s - 1),
                rid,
                rc,
                alts,
                alts.len() as int,
            )
        }
    }

    /// The picks after the first `i` recipes were offered.
    pub open spec fn picks(self, base: Prices, p: Picks, i: int) -> Picks
        decreases i,
    {
        if i <= 0 {
            p
        } else {
            let q = self.picks(base, p, i - 1);
            let rid = (i - 1) as u32;
            let r = self.g.recipes@[i - 1];
            if self.g.plannable@[i - 1] && r.inputs@.len() > 0 {
                match operation_cost(
                    *self.ar,
                    *self.g,
                    q.costs,
                    self.w,
                    Allowed::Any,
                    r,
                    penalty_spec(*self.ar, *self.g, rid),
                ) {
                    Some(rc) => self.offer_slots(
                        base,
                        q,
                        rid,
                        rc,
                        r.outputs@,
                        r.outputs@.len() as int,
                    ),
                    None => q,
                }
            } else {
                q
            }
        }
    }

    /// The picks before any recipe was offered.
    pub open spec fn no_picks(self, costs: Seq<CostVector>) -> Picks {
        let n = self.g.m_count() as nat;
        Picks {
            best: Seq::new(n, |m: int| None),
            score: Seq::new(n, |m: int| self.ar.infinity_spec()),
            costs,
        }
    }

    /// The final picks.
    pub open spec fn result(self) -> Picks {
        let p = self.components(self.unpriced(), self.cond.topo_order@.len() as int);
        self.picks(p, self.no_picks(p.costs), self.g.r_count())
    }
}

impl<'a, A: Arithmetic> Setting<'a, A> {
    /// A material is settled as a raw resource.
    spec fn is_raw_in(self, p: Prices, m: MaterialId) -> bool {
        p.fixed(m) && p.costs[m as int] == CostVector::raw_spec(*self.ar)
    }

    /// The lists of prices are as long as there are materials, and a source that
    /// is settled is raw.
    spec fn sources_hold(self, p: Prices) -> bool {
        &&& p.costs.len() == self.g.m_count()
        &&& p.settled.len() == self.g.m_count()
        &&& p.anchor.len() == self.g.m_count()
        &&& forall|m: MaterialId|
            m < self.g.m_count() && self.g.source_spec(m) && #[trigger] p.settled[m as int]
                ==> self.is_raw_in(p, m)
        &&& forall|m: MaterialId|
            m < self.g.m_count() && self.g.source_spec(m) ==> #[trigger] p.anchor[m as int] is None
    }

    /// What is settled stays settled.
    spec fn stays(self, p: Prices, q: Prices) -> bool {
        forall|m: MaterialId|
            m < self.g.m_count() && #[trigger] p.settled[m as int] ==> q.settled[m as int]
    }

    proof fn entries_hold(self, p: Prices, comp: u32, i: int)
        requires
            self.ok(),
            self.sources_hold(p),
            comp < self.cond.comp_count,
            0 <= i <= self.cond.materials_in_comp@[comp as int]@.len(),
        ensures
            self.sources_hold(self.entries(p, comp, i)),
            self.stays(p, self.entries(p, comp, i)),
            forall|k: int|
                0 <= k < i && self.g.source_spec(
                    #[trigger] self.cond.materials_in_comp@[comp as int]@[k],
                ) ==> self.entries(
                    p,
                    comp,
                    i,
                ).settled[self.cond.materials_in_comp@[comp as int]@[k] as int],
        decreases i,
    {
        if i > 0 {
            self.entries_hold(p, comp, i - 1);
            self.cond.member(*self.g, comp as int, i - 1);
            assert forall|k: int| 0 <= k < i implies #[trigger] self.cond.materials_in_comp@[comp as int]@[k]
                < self.g.m_count() by {
                self.cond.member(*self.g, comp as int, k);
            }
        }
    }

    proof fn round_holds(self, p: Prices, comp: u32, i: int)
        requires
            self.ok(),
            self.sources_hold(p),
            comp < self.cond.comp_count,
            0 <= i <= self.cond.materials_in_comp@[comp as int]@.len(),
            forall|k: int|
                0 <= k < self.cond.materials_in_comp@[comp as int]@.len() && self.g.source_spec(
                    #[trigger] self.cond.materials_in_comp@[comp as int]@[k],
                ) ==> p.settled[self.cond.materials_in_comp@[comp as int]@[k] as int],
        ensures
            self.sources_hold(self.round_to(p, comp, i)),
            self.stays(p, self.round_to(p, comp, i)),
        decreases i,
    {
        if i > 0 {
            self.round_holds(p, comp, i - 1);
            self.cond.member(*self.g, comp as int, i - 1);
        }
    }

    proof fn rounds_hold(self, p: Prices, comp: u32, k: nat)
        requires
            self.ok(),
            self.sources_hold(p),
            comp < self.cond.comp_count,
            forall|k: int|
                0 <= k < self.cond.materials_in_comp@[comp as int]@.len() && self.g.source_spec(
                    #[trigger] self.cond.materials_in_comp@[comp as int]@[k],
                ) ==> p.settled[self.cond.materials_in_comp@[comp as int]@[k] as int],
        ensures
            self.sources_hold(self.rounds(p, comp, k)),
            self.stays(p, self.rounds(p, comp, k)),
        decreases k,
    {
        if k > 0 {
            let list = self.cond.materials_in_comp@[comp as int]@;
            self.round_holds(p, comp, list.len() as int);
            let q = self.round(p, comp);
            assert forall|k: int| 0 <= k < list.len() && self.g.source_spec(
                #[trigger] list[k],
            ) implies q.settled[list[k] as int] by {
                self.cond.member(*self.g, comp as int, k);
                assert(p.settled[list[k] as int]);
            }
            if q.settled != p.settled {
                self.rounds_hold(q, comp, (k - 1) as nat);
            }
        }
    }

    proof fn all_raw_holds(self, p: Prices, comp: u32, i: int)
        requires
            self.ok(),
            self.sources_hold(p),
            comp < self.cond.comp_count,
            0 <= i <= self.cond.materials_in_comp@[comp as int]@.len(),
        ensures
            self.sources_hold(self.all_raw(p, comp, i)),
            self.stays(p, self.all_raw(p, comp, i)),
        decreases i,
    {
        if i > 0 {
            self.all_raw_holds(p, comp, i - 1);
            self.cond.member(*self.g, comp as int, i - 1);
        }
    }

    proof fn components_hold(self, i: int)
        requires
            self.ok(),
            0 <= i <= self.cond.topo_order@.len(),
        ensures
            self.sources_hold(self.components(self.unpriced(), i)),
            forall|m: MaterialId|
                m < self.g.m_count() && #[trigger] self.g.source_spec(m)
                    && self.cond.topo_order@.take(i).contains(
                    self.cond.comp_of_material@[m as int],
                ) ==> self.components(self.unpriced(), i).settled[m as int],
        decreases i,
    {
        if i > 0 {
            self.components_hold(i - 1);
            let p = self.components(self.unpriced(), i - 1);
            let comp = self.cond.topo_order@[i - 1];
            assert(self.cond.topo_order@.contains(comp));
            let list = self.cond.materials_in_comp@[comp as int]@;
            let n = list.len() as int;
            self.entries_hold(p, comp, n);
            let e = self.entries(p, comp, n);
            self.rounds_hold(e, comp, 64);
            let q = self.rounds(e, comp, 64);
            self.all_raw_holds(q, comp, n);
            let next = self.component(p, comp);
            assert(self.stays(p, next));
            assert forall|m: MaterialId|
                m < self.g.m_count() && #[trigger] self.g.source_spec(m)
                    && self.cond.topo_order@.take(i).contains(
                    self.cond.comp_of_material@[m as int],
                ) implies next.settled[m as int] by {
                let c = self.cond.comp_of_material@[m as int];
                let at = choose|k: int|
                    0 <= k < i && #[trigger] self.cond.topo_order@.take(i)[k] == c;
                if at < i - 1 {
                    assert(self.cond.topo_order@.take(i - 1)[at] == c);
                    assert(p.settled[m as int]);
                } else {
                    self.cond.listed(*self.g, comp as int, m);
                    let k = choose|k: int| 0 <= k < list.len() && list[k] == m;
                    assert(self.g.source_spec(list[k]));
                    assert(e.settled[m as int]);
                    assert(q.settled[m as int]);
                }
            }
        }
    }

    proof fn alts_pass(
        self,
        base: Prices,
        p: Picks,
        rid: RecipeId,
        rc: CostVector,
        s: int,
        i: int,
        m: MaterialId,
    )
        requires
            self.ok(),
            m < self.g.m_count(),
            base.fixed(m),
            rid < self.g.r_count(),
            self.g.plannable@[rid as int],
            0 <= s < self.g.recipes@[rid as int].outputs@.len(),
            0 <= i <= self.g.recipes@[rid as int].outputs@[s].alts@.len(),
            p.costs.len() == self.g.m_count(),
            p.best.len() == self.g.m_count(),
        ensures
            ({
                let q = self.offer_alts(
                    base,
                    p,
                    rid,
                    rc,
                    self.g.recipes@[rid as int].outputs@[s].alts@,
                    i,
                );
                &&& q.costs.len() == p.costs.len()
                &&& q.best.len() == p.best.len()
                &&& q.costs[m as int] == p.costs[m as int]
                &&& q.best[m as int] == p.best[m as int]
            }),
        decreases i,
    {
        if i > 0 {
            self.alts_pass(base, p, rid, rc, s, i - 1, m);
        }
    }

    proof fn slots_pass(
        self,
        base: Prices,
        p: Picks,
        rid: RecipeId,
        rc: CostVector,
        s: int,
        m: MaterialId,
    )
        requires
            self.ok(),
            m < self.g.m_count(),
            base.fixed(m),
            rid < self.g.r_count(),
            self.g.plannable@[rid as int],
            0 <= s <= self.g.recipes@[rid as int].outputs@.len(),
            p.costs.len() == self.g.m_count(),
            p.best.len() == self.g.m_count(),
        ensures
            ({
                let q = self.offer_slots(
                    base,
                    p,
                    rid,
                    rc,
                    self.g.recipes@[rid as int].outputs@,
                    s,
                );
                &&& q.costs.len() == p.costs.len()
                &&& q.best.len() == p.best.len()
                &&& q.costs[m as int] == p.costs[m as int]
                &&& q.best[m as int] == p.best[m as int]
            }),
        decreases s,
    {
        if s > 0 {
            self.slots_pass(base, p, rid, rc, s - 1, m);
            let slots = self.g.recipes@[rid as int].outputs@;
            self.alts_pass(
                base,
                self.offer_slots(base, p, rid, rc, slots, s - 1),
                rid,
                rc,
                s - 1,
                slots[s - 1].alts@.len() as int,
                m,
            );
        }
    }

    proof fn picks_pass(self, base: Prices, p: Picks, i: int, m: MaterialId)
        requires
            self.ok(),
            m < self.g.m_count(),
            base.fixed(m),
            0 <= i <= self.g.r_count(),
            p.costs.len() == self.g.m_count(),
            p.best.len() == self.g.m_count(),
        ensures
            ({
                let q = self.picks(base, p, i);
                &&& q.costs.len() == p.costs.len()
                &&& q.best.len() == p.best.len()
                &&& q.costs[m as int] == p.costs[m as int]
                &&& q.best[m as int] == p.best[m as int]
            }),
        decreases i,
    {
        if i > 0 {
            self.picks_pass(base, p, i - 1, m);
            let q = self.picks(base, p, i - 1);
            let rid = (i - 1) as u32;
            let r = self.g.recipes@[i - 1];
            if self.g.plannable@[i - 1] && r.inputs@.len() > 0 {
                if let Some(rc) = operation_cost(
                    *self.ar,
                    *self.g,
                    q.costs,
                    self.w,
                    Allowed::Any,
                    r,
                    penalty_spec(*self.ar, *self.g, rid),
                ) {
                    self.slots_pass(base, q, rid, rc, r.outputs@.len() as int, m);
                }
            }
        }
    }

    /// What has to come from outside costs what a raw resource costs, and has no
    /// recipe: no cycle and no recipe makes it cheaper.
    pub proof fn sources_are_raw(self, m: MaterialId)
        requires
            self.ok(),
            m < self.g.m_count(),
            self.g.source_spec(m),
        ensures
            self.result().costs[m as int] == CostVector::raw_spec(*self.ar),
            self.result().best[m as int] is None,
    {
        let n = self.cond.topo_order@.len() as int;
        self.components_hold(n);
        let p = self.components(self.unpriced(), n);
        let c = self.cond.comp_of_material@[m as int];
        assert(self.cond.topo_order@.contains(c));
        assert(self.cond.topo_order@.take(n) =~= self.cond.topo_order@);
        assert(p.settled[m as int]);
        self.picks_pass(p, self.no_picks(p.costs), self.g.r_count(), m);
    }
}

impl<'a, A: Arithmetic> Setting<'a, A> {
    /// The lists of prices are as long as there are materials.
    pub open spec fn lists_all(self, p: Prices) -> bool {
        &&& p.costs.len() == self.g.m_count()
        &&& p.settled.len() == self.g.m_count()
        &&& p.anchor.len() == self.g.m_count()
    }

    /// Two states of the prices agree on a material.
    pub open spec fn agree_on(self, p: Prices, q: Prices, m: MaterialId) -> bool {
        &&& p.costs[m as int] == q.costs[m as int]
        &&& p.settled[m as int] == q.settled[m as int]
        &&& p.anchor[m as int] == q.anchor[m as int]
    }

    proof fn entries_stay_within(self, p: Prices, comp: u32, i: int, m: MaterialId)
        requires
            self.ok(),
            self.lists_all(p),
            comp < self.cond.comp_count,
            0 <= i <= self.cond.materials_in_comp@[comp as int]@.len(),
            m < self.g.m_count(),
        ensures
            self.lists_all(self.entries(p, comp, i)),
            self.cond.comp_of_material@[m as int] != comp ==> self.agree_on(
                p,
                self.entries(p, comp, i),
                m,
            ),
        decreases i,
    {
        if i > 0 {
            self.entries_stay_within(p, comp, i - 1, m);
            self.cond.member(*self.g, comp as int, i - 1);
        }
    }

    proof fn round_stays_within(self, p: Prices, comp: u32, i: int, m: MaterialId)
        requires
            self.ok(),
            self.lists_all(p),
            comp < self.cond.comp_count,
            0 <= i <= self.cond.materials_in_comp@[comp as int]@.len(),
            m < self.g.m_count(),
        ensures
            self.lists_all(self.round_to(p, comp, i)),
            self.cond.comp_of_material@[m as int] != comp ==> self.agree_on(
                p,
                self.round_to(p, comp, i),
                m,
            ),
        decreases i,
    {
        if i > 0 {
            self.round_stays_within(p, comp, i - 1, m);
            self.cond.member(*self.g, comp as int, i - 1);
        }
    }

    proof fn rounds_stay_within(self, p: Prices, comp: u32, k: nat, m: MaterialId)
        requires
            self.ok(),
            self.lists_all(p),
            comp < self.cond.comp_count,
            m < self.g.m_count(),
        ensures
            self.lists_all(self.rounds(p, comp, k)),
            self.cond.comp_of_material@[m as int] != comp ==> self.agree_on(
                p,
                self.rounds(p, comp, k),
                m,
            ),
        decreases k,
    {
        if k > 0 {
            self.round_stays_within(
                p,
                comp,
                self.cond.materials_in_comp@[comp as int]@.len() as int,
                m,
            );
            let q = self.round(p, comp);
            if q.settled != p.settled {
                self.rounds_stay_within(q, comp, (k - 1) as nat, m);
            }
        }
    }

    proof fn all_raw_stays_within(self, p: Prices, comp: u32, i: int, m: MaterialId)
        requires
            self.ok(),
            self.lists_all(p),
            comp < self.cond.comp_count,
            0 <= i <= self.cond.materials_in_comp@[comp as int]@.len(),
            m < self.g.m_count(),
        ensures
            self.lists_all(self.all_raw(p, comp, i)),
            self.all_raw(p, comp, i).anchor == p.anchor,
            self.cond.comp_of_material@[m as int] != comp ==> self.agree_on(
                p,
                self.all_raw(p, comp, i),
                m,
            ),
        decreases i,
    {
        if i > 0 {
            self.all_raw_stays_within(p, comp, i - 1, m);
            self.cond.member(*self.g, comp as int, i - 1);
        }
    }

    /// Working out a component leaves all other components as they are: no cycle
    /// lowers a price that was settled before it.
    pub proof fn component_stays_within(self, p: Prices, comp: u32, m: MaterialId)
        requires
            self.ok(),
            self.lists_all(p),
            comp < self.cond.comp_count,
            m < self.g.m_count(),
            self.cond.comp_of_material@[m as int] != comp,
        ensures
            self.lists_all(self.component(p, comp)),
            self.agree_on(p, self.component(p, comp), m),
    {
        let n = self.cond.materials_in_comp@[comp as int]@.len() as int;
        self.entries_stay_within(p, comp, n, m);
        let e = self.entries(p, comp, n);
        self.rounds_stay_within(e, comp, 64, m);
        self.all_raw_stays_within(self.rounds(e, comp, 64), comp, n, m);
    }

    proof fn all_raw_are_raw(self, p: Prices, comp: u32, i: int, k: int)
        requires
            self.ok(),
            self.lists_all(p),
            comp < self.cond.comp_count,
            0 <= k < i <= self.cond.materials_in_comp@[comp as int]@.len(),
            p.anchor[self.cond.materials_in_comp@[comp as int]@[k] as int] is None,
        ensures
            self.lists_all(self.all_raw(p, comp, i)),
            self.is_raw_in(
                self.all_raw(p, comp, i),
                self.cond.materials_in_comp@[comp as int]@[k],
            ),
        decreases i,
    {
        self.cond.member(*self.g, comp as int, k);
        self.cond.member(*self.g, comp as int, i - 1);
        let m = self.cond.materials_in_comp@[comp as int]@[k];
        self.all_raw_stays_within(p, comp, i - 1, m);
        if k < i - 1 {
            self.all_raw_are_raw(p, comp, i - 1, k);
        }
    }

    /// Nothing leads into a component from outside: none of its materials is a
    /// source, and whatever makes one of them needs another one of them.
    pub open spec fn closed_off(self, comp: u32) -> bool {
        &&& forall|m: MaterialId|
            m < self.g.m_count() && self.cond.comp_of_material@[m as int] == comp
                ==> !#[trigger] self.g.source_spec(m)
        &&& forall|m: MaterialId, r: RecipeId|
            m < self.g.m_count() && self.cond.comp_of_material@[m as int] == comp
                && #[trigger] makes(*self.g, r, m) ==> self.needs_own(comp, r)
    }

    /// A material is taken from the world: it is a source, or nothing leads into
    /// its component.
    pub open spec fn of_the_world(self, m: MaterialId) -> bool {
        self.g.source_spec(m) || self.closed_off(self.cond.comp_of_material@[m as int])
    }

    /// Some input slot of the recipe can be filled with materials of the component
    /// only.
    pub open spec fn needs_own(self, comp: u32, r: RecipeId) -> bool {
        exists|s: int| #[trigger] self.needs_own_at(comp, r, s)
    }

    pub open spec fn needs_own_at(self, comp: u32, r: RecipeId, s: int) -> bool {
        let slots = self.g.recipes@[r as int].inputs@;
        0 <= s < slots.len() && forall|a: int|
            0 <= a < slots[s].alts@.len()
                ==> self.cond.comp_of_material@[(#[trigger] slots[s].alts@[a]).0 as int] == comp
    }

    /// Nothing of the component is settled.
    spec fn untouched(self, p: Prices, comp: u32) -> bool {
        &&& self.lists_all(p)
        &&& forall|m: MaterialId|
            m < self.g.m_count() && #[trigger] self.cond.comp_of_material@[m as int] == comp
                ==> !p.settled[m as int] && p.anchor[m as int] is None
    }

    proof fn nothing_fits(self, costs: Seq<CostVector>, u: Allowed, alts: Seq<(MaterialId, u64)>, i: int)
        requires
            0 <= i <= alts.len(),
            forall|a: int| 0 <= a < alts.len() ==> !u.allows((#[trigger] alts[a]).0),
        ensures
            slot_best(*self.ar, *self.g, costs, self.w, u, alts, i).0 is None,
        decreases i,
    {
        if i > 0 {
            self.nothing_fits(costs, u, alts, i - 1);
        }
    }

    /// Where nothing of the component may be used, no route leads into it.
    proof fn no_way_in(self, costs: Seq<CostVector>, u: Allowed, comp: u32, m: MaterialId, i: int)
        requires
            self.ok(),
            self.closed_off(comp),
            m < self.g.m_count(),
            self.cond.comp_of_material@[m as int] == comp,
            0 <= i <= self.g.producers@[m as int]@.len(),
            forall|x: MaterialId|
                x < self.g.m_count() && #[trigger] self.cond.comp_of_material@[x as int] == comp
                    ==> !u.allows(x),
        ensures
            self.best_route(costs, u, m, i) == self.no_route(),
        decreases i,
    {
        if i > 0 {
            self.no_way_in(costs, u, comp, m, i - 1);
            let rid = self.g.producers@[m as int]@[i - 1];
            let f = |r: int| self.g.produces(r, m as int as u32);
            assert(crate::graph::lists(self.g.producers@[m as int]@, self.g.r_count(), f));
            assert(f(rid as int));
            let r = self.g.recipes@[rid as int];
            if self.g.plannable@[rid as int] && r.inputs@.len() > 0 {
                assert(makes(*self.g, rid, m));
                let s = choose|s: int| #[trigger] self.needs_own_at(comp, rid, s);
                let alts = r.inputs@[s].alts@;
                assert(crate::graph::slot_ok(r.inputs@[s], self.g.m_count()));
                assert forall|a: int| 0 <= a < alts.len() implies !u.allows((#[trigger] alts[a]).0) by {
                    assert(self.cond.comp_of_material@[alts[a].0 as int] == comp);
                }
                self.nothing_fits(costs, u, alts, alts.len() as int);
                slots_cost_stays_none(
                    *self.ar,
                    *self.g,
                    costs,
                    self.w,
                    u,
                    r,
                    s + 1,
                    r.inputs@.len() as int,
                );
            }
        }
    }

    proof fn entries_find_nothing(self, p: Prices, comp: u32, i: int)
        requires
            self.ok(),
            self.closed_off(comp),
            self.untouched(p, comp),
            comp < self.cond.comp_count,
            0 <= i <= self.cond.materials_in_comp@[comp as int]@.len(),
        ensures
            self.entries(p, comp, i) == p,
        decreases i,
    {
        if i > 0 {
            self.entries_find_nothing(p, comp, i - 1);
            self.cond.member(*self.g, comp as int, i - 1);
            let m = self.cond.materials_in_comp@[comp as int]@[i - 1];
            self.ar.infinity_is_not_finite();
            self.no_way_in(
                p.costs,
                Allowed::Outside(p.settled, self.cond.comp_of_material@, comp),
                comp,
                m,
                self.g.producers@[m as int]@.len() as int,
            );
        }
    }

    proof fn round_finds_nothing(self, p: Prices, comp: u32, i: int)
        requires
            self.ok(),
            self.closed_off(comp),
            self.untouched(p, comp),
            comp < self.cond.comp_count,
            0 <= i <= self.cond.materials_in_comp@[comp as int]@.len(),
        ensures
            self.round_to(p, comp, i) == p,
        decreases i,
    {
        if i > 0 {
            self.round_finds_nothing(p, comp, i - 1);
            self.cond.member(*self.g, comp as int, i - 1);
            let m = self.cond.materials_in_comp@[comp as int]@[i - 1];
            self.ar.infinity_is_not_finite();
            self.no_way_in(
                p.costs,
                Allowed::Settled(p.settled),
                comp,
                m,
                self.g.producers@[m as int]@.len() as int,
            );
        }
    }

    /// The first `i` components leave a closed component alone, unless it is one
    /// of them: then its materials are raw.
    proof fn closed_through(self, comp: u32, i: int, m: MaterialId)
        requires
            self.ok(),
            comp < self.cond.comp_count,
            self.closed_off(comp),
            0 <= i <= self.cond.topo_order@.len(),
            m < self.g.m_count(),
            self.cond.comp_of_material@[m as int] == comp,
        ensures
            self.lists_all(self.components(self.unpriced(), i)),
            if self.cond.topo_order@.take(i).contains(comp) {
                self.is_raw_in(self.components(self.unpriced(), i), m)
            } else {
                self.untouched(self.components(self.unpriced(), i), comp)
            },
        decreases i,
    {
        let order = self.cond.topo_order@;
        if i > 0 {
            self.closed_through(comp, i - 1, m);
            let p = self.components(self.unpriced(), i - 1);
            let c = order[i - 1];
            assert(order.contains(c));
            assert(order.take(i)[i - 1] == c);
            if order.take(i - 1).contains(comp) {
                let k = choose|k: int| 0 <= k < i - 1 && #[trigger] order.take(i - 1)[k] == comp;
                assert(order.take(i)[k] == comp);
                assert(order[k] != order[i - 1]);
                self.component_stays_within(p, c, m);
            } else if c == comp {
                let list = self.cond.materials_in_comp@[comp as int]@;
                let n = list.len() as int;
                self.entries_find_nothing(p, comp, n);
                self.round_finds_nothing(p, comp, n);
                assert(self.rounds(p, comp, 64) == p);
                assert(!self.any_settled(p, comp)) by {
                    assert forall|k: int| 0 <= k < n implies !p.settled[(#[trigger] list[k]) as int] by {
                        self.cond.member(*self.g, comp as int, k);
                        assert(self.cond.comp_of_material@[list[k] as int] == comp);
                    }
                }
                self.cond.listed(*self.g, comp as int, m);
                let k = choose|k: int| 0 <= k < n && list[k] == m;
                assert(p.anchor[m as int] is None) by {
                    assert(self.cond.comp_of_material@[m as int] == comp);
                }
                self.all_raw_are_raw(p, comp, n, k);
            } else {
                if order.take(i).contains(comp) {
                    let k = choose|k: int| 0 <= k < i && #[trigger] order.take(i)[k] == comp;
                    assert(order.take(i - 1)[k] == comp);
                }
                let q = self.component(p, c);
                self.component_stays_within(p, c, m);
                assert forall|x: MaterialId|
                    x < self.g.m_count() && #[trigger] self.cond.comp_of_material@[x as int]
                        == comp implies !q.settled[x as int] && q.anchor[x as int] is None by {
                    self.component_stays_within(p, c, x);
                }
            }
        } else {
            assert(order.take(0) =~= Seq::empty());
        }
    }

    /// A component that nothing leads into, such as an ore that is pressed into
    /// blocks and back, is a resource of the world: all its materials cost what a
    /// raw resource costs, and none has a recipe.
    pub proof fn closed_components_are_raw(self, comp: u32, m: MaterialId)
        requires
            self.ok(),
            comp < self.cond.comp_count,
            self.closed_off(comp),
            m < self.g.m_count(),
            self.cond.comp_of_material@[m as int] == comp,
        ensures
            self.result().costs[m as int] == CostVector::raw_spec(*self.ar),
            self.result().best[m as int] is None,
    {
        let n = self.cond.topo_order@.len() as int;
        self.closed_through(comp, n, m);
        let p = self.components(self.unpriced(), n);
        assert(self.cond.topo_order@.contains(comp));
        assert(self.cond.topo_order@.take(n) =~= self.cond.topo_order@);
        self.picks_pass(p, self.no_picks(p.costs), self.g.r_count(), m);
    }
}

/// A quantity is not positive.
pub open spec fn not_positive<A: Arithmetic>(ar: A, x: Scalar) -> bool {
    ar.le_spec(x, ar.ratio_spec(0, 1))
}

/// Costs while they are being settled.
struct PriceTable {
    costs: Vec<CostVector>,
    settled: Vec<bool>,
    anchor: Vec<Option<RecipeId>>,
}

impl View for PriceTable {
    type V = Prices;

    closed spec fn view(&self) -> Prices {
        Prices { costs: self.costs@, settled: self.settled@, anchor: self.anchor@ }
    }
}

impl PriceTable {
    spec fn sized(self, n: int) -> bool {
        self.costs@.len() == n && self.settled@.len() == n && self.anchor@.len() == n
    }

    fn settle(&mut self, m: MaterialId, route: Route)
        requires
            old(self).sized(old(self).costs@.len() as int),
            m < old(self).costs@.len(),
        ensures
            final(self)@ == old(self)@.settle(m, route),
            final(self).sized(old(self).costs@.len() as int),
            final(self).settled@ != old(self).settled@ || old(self).settled@[m as int],
    {
        let ghost before = self.settled@;
        self.costs[m as usize] = route.cost;
        self.settled[m as usize] = true;
        self.anchor[m as usize] = route.recipe;
        assert(self.settled@[m as int]);
    }

    fn settle_raw<A: Arithmetic>(&mut self, ar: &A, m: MaterialId)
        requires
            old(self).sized(old(self).costs@.len() as int),
            m < old(self).costs@.len(),
        ensures
            final(self)@ == old(self)@.settle_raw(*ar, m),
            final(self).sized(old(self).costs@.len() as int),
    {
        self.costs[m as usize] = CostVector::raw(ar);
        self.settled[m as usize] = true;
    }
}

impl PriceTable {
    fn is_fixed(&self, m: MaterialId) -> (r: bool)
        requires
            self.sized(self.costs@.len() as int),
            m < self.costs@.len(),
        ensures
            r == self@.fixed(m),
    {
        self.settled[m as usize] && self.anchor[m as usize].is_none()
    }
}

/// The picks while recipes are compared.
struct PickTable {
    best: Vec<Option<RecipeId>>,
    score: Vec<Scalar>,
    costs: Vec<CostVector>,
}

impl View for PickTable {
    type V = Picks;

    closed spec fn view(&self) -> Picks {
        Picks { best: self.best@, score: self.score@, costs: self.costs@ }
    }
}

impl PickTable {
    /// The tables have one entry for each material, and what is picked for a
    /// material can be planned with, consumes something and produces it.
    spec fn fits(self, g: KnowledgeGraph) -> bool {
        &&& self.best@.len() == g.m_count()
        &&& self.score@.len() == g.m_count()
        &&& self.costs@.len() == g.m_count()
        &&& forall|m: int|
            0 <= m < g.m_count() ==> (#[trigger] self.best@[m] matches Some(r) ==> makes(
                g,
                r,
                m as u32,
            ))
    }
}

/// Recipe `r` can be planned with, consumes something and produces `m`.
pub open spec fn makes(g: KnowledgeGraph, r: RecipeId, m: MaterialId) -> bool {
    &&& r < g.r_count()
    &&& g.plannable@[r as int]
    &&& g.recipes@[r as int].inputs@.len() > 0
    &&& g.produces(r as int, m)
}

impl<'a, A: Arithmetic> Setting<'a, A> {
    /// The best route to a material.
    fn find_route(&self, costs: &Vec<CostVector>, usable: Usable, m: MaterialId) -> (r: Route)
        requires
            self.ok(),
            m < self.g.m_count(),
            costs@.len() == self.g.m_count(),
            usable.fits(self.g.m_count()),
        ensures
            r == self.route(costs@, usable.allowed(), m),
    {
        let g = self.g;
        let prods = &g.producers[m as usize];
        let mut best = Route { cost: CostVector::inf(self.ar), recipe: None, depth: u32::MAX };
        let mut i: usize = 0;
        while i < prods.len()
            invariant
                i <= prods@.len(),
                self.ok(),
                g == self.g,
                m < g.m_count(),
                costs@.len() == g.m_count(),
                usable.fits(g.m_count()),
                prods@ == g.producers@[m as int]@,
                best == self.best_route(costs@, usable.allowed(), m, i as int),
                best.recipe matches Some(b) ==> b < g.r_count(),
            decreases prods@.len() - i,
        {
            let rid: u32 = prods[i];
            proof {
                let p = |r: int| g.produces(r, m as int as u32);
                assert(crate::graph::lists(g.producers@[m as int]@, g.r_count(), p));
            }
            let r = g.recipe(rid);
            if g.is_plannable(rid) && r.inputs.len() > 0 {
                let found = unit_cost_of_recipe(
                    self.ar,
                    g,
                    costs,
                    &self.w,
                    r,
                    m,
                    penalty_of(self.ar, g, rid),
                    usable,
                );
                if let Some(c) = found {
                    let rd: u32 = recipe_depth(self.depth, r);
                    if better_candidate(self.ar, g, &self.w, c, rid, rd, &best) {
                        best = Route { cost: c, recipe: Some(rid), depth: rd };
                    }
                }
            }
            i += 1;
        }
        best
    }

    fn find_entries(&self, p: &mut PriceTable, comp: u32)
        requires
            self.ok(),
            comp < self.cond.comp_count,
            old(p).sized(self.g.m_count()),
        ensures
            final(p).sized(self.g.m_count()),
            final(p)@ == self.entries(
                old(p)@,
                comp,
                self.cond.materials_in_comp@[comp as int]@.len() as int,
            ),
    {
        let ghost start = p@;
        let mats = &self.cond.materials_in_comp[comp as usize];
        let mut i: usize = 0;
        while i < mats.len()
            invariant
                i <= mats@.len(),
                self.ok(),
                comp < self.cond.comp_count,
                mats@ == self.cond.materials_in_comp@[comp as int]@,
                p.sized(self.g.m_count()),
                p@ == self.entries(start, comp, i as int),
            decreases mats@.len() - i,
        {
            let m: u32 = mats[i];
            proof {
                self.mats_below(comp, i as int);
            }
            if self.g.is_source(m) {
                p.settle_raw(self.ar, m);
            } else {
                let best = self.find_route(
                    &p.costs,
                    Usable::Outside(&p.settled, &self.cond.comp_of_material, comp),
                    m,
                );
                if best.cost.is_finite(self.ar) {
                    p.settle(m, best);
                }
            }
            i += 1;
        }
    }

    proof fn mats_below(&self, comp: u32, i: int)
        requires
            self.ok(),
            comp < self.cond.comp_count,
            0 <= i < self.cond.materials_in_comp@[comp as int]@.len(),
        ensures
            self.cond.materials_in_comp@[comp as int]@[i] < self.g.m_count(),
    {
        self.cond.member(*self.g, comp as int, i);
    }

    /// One round over a component; says whether anything was settled.
    fn find_round(&self, p: &mut PriceTable, comp: u32) -> (changed: bool)
        requires
            self.ok(),
            comp < self.cond.comp_count,
            old(p).sized(self.g.m_count()),
        ensures
            final(p).sized(self.g.m_count()),
            final(p)@ == self.round(old(p)@, comp),
            changed == (final(p)@.settled != old(p)@.settled),
    {
        let ghost start = p@;
        let mut changed = false;
        let mats = &self.cond.materials_in_comp[comp as usize];
        let mut i: usize = 0;
        while i < mats.len()
            invariant
                i <= mats@.len(),
                self.ok(),
                comp < self.cond.comp_count,
                mats@ == self.cond.materials_in_comp@[comp as int]@,
                p.sized(self.g.m_count()),
                start.settled.len() == self.g.m_count(),
                p@ == self.round_to(start, comp, i as int),
                forall|m: int|
                    0 <= m < self.g.m_count() && start.settled[m] ==> #[trigger] p.settled@[m],
                !changed ==> p.settled@ == start.settled,
                changed ==> exists|m: int|
                    0 <= m < self.g.m_count() && #[trigger] p.settled@[m] && !start.settled[m],
            decreases mats@.len() - i,
        {
            let m: u32 = mats[i];
            proof {
                self.mats_below(comp, i as int);
            }
            let ghost before = p.settled@;
            if !p.settled[m as usize] {
                let best = self.find_route(&p.costs, Usable::Settled(&p.settled), m);
                if best.cost.is_finite(self.ar) {
                    p.settle(m, best);
                    proof {
                        if changed {
                            let k = choose|k: int|
                                0 <= k < self.g.m_count() && #[trigger] before[k]
                                    && !start.settled[k];
                            assert(p.settled@[k]);
                        }
                        assert(p.settled@[m as int]);
                        assert(!start.settled[m as int]);
                    }
                    changed = true;
                }
            }
            i += 1;
        }
        changed
    }

    /// Rounds over a component until nothing more is settled.
    fn find_rounds(&self, p: &mut PriceTable, comp: u32)
        requires
            self.ok(),
            comp < self.cond.comp_count,
            old(p).sized(self.g.m_count()),
        ensures
            final(p).sized(self.g.m_count()),
            final(p)@ == self.rounds(old(p)@, comp, 64),
    {
        let ghost start = p@;
        let mut k: u32 = 64;
        let mut more = true;
        while k > 0 && more
            invariant
                k <= 64,
                self.ok(),
                comp < self.cond.comp_count,
                p.sized(self.g.m_count()),
                more ==> self.rounds(start, comp, 64) == self.rounds(p@, comp, k as nat),
                !more ==> self.rounds(start, comp, 64) == p@,
            decreases k,
        {
            more = self.find_round(p, comp);
            k -= 1;
        }
    }

    /// Settles the prices of a component.
    fn find_component(&self, p: &mut PriceTable, comp: u32)
        requires
            self.ok(),
            comp < self.cond.comp_count,
            old(p).sized(self.g.m_count()),
        ensures
            final(p).sized(self.g.m_count()),
            final(p)@ == self.component(old(p)@, comp),
    {
        let mats = &self.cond.materials_in_comp[comp as usize];
        if mats.len() == 0 {
            return;
        }
        self.find_entries(p, comp);
        self.find_rounds(p, comp);
        let ghost q = p@;
        let mut any = false;
        let mut i: usize = 0;
        while i < mats.len() && !any
            invariant
                i <= mats@.len(),
                self.ok(),
                comp < self.cond.comp_count,
                mats@ == self.cond.materials_in_comp@[comp as int]@,
                p.sized(self.g.m_count()),
                p@ == q,
                any ==> self.any_settled(q, comp),
                !any ==> forall|k: int|
                    0 <= k < i ==> !q.settled[(
                    #[trigger] self.cond.materials_in_comp@[comp as int]@[k]) as int],
            decreases mats@.len() - i,
        {
            let m: u32 = mats[i];
            proof {
                self.mats_below(comp, i as int);
            }
            if p.settled[m as usize] {
                any = true;
            }
            i += 1;
        }
        if !any {
            let mut i: usize = 0;
            while i < mats.len()
                invariant
                    i <= mats@.len(),
                    self.ok(),
                    comp < self.cond.comp_count,
                    mats@ == self.cond.materials_in_comp@[comp as int]@,
                    p.sized(self.g.m_count()),
                    p@ == self.all_raw(q, comp, i as int),
                decreases mats@.len() - i,
            {
                let m: u32 = mats[i];
                proof {
                    self.mats_below(comp, i as int);
                }
                p.settle_raw(self.ar, m);
                i += 1;
            }
        }
    }

    /// Settles the prices of all components.
    fn find_prices(&self) -> (p: PriceTable)
        requires
            self.ok(),
        ensures
            p.sized(self.g.m_count()),
            p@ == self.components(self.unpriced(), self.cond.topo_order@.len() as int),
    {
        let n: usize = self.g.materials.len();
        let mut p = PriceTable {
            costs: filled(n, CostVector::inf(self.ar)),
            settled: filled(n, false),
            anchor: filled(n, None),
        };
        assert(p@.costs =~= self.unpriced().costs);
        assert(p@.settled =~= self.unpriced().settled);
        assert(p@.anchor =~= self.unpriced().anchor);
        let mut i: usize = 0;
        while i < self.cond.topo_order.len()
            invariant
                i <= self.cond.topo_order@.len(),
                self.ok(),
                p.sized(self.g.m_count()),
                p@ == self.components(self.unpriced(), i as int),
            decreases self.cond.topo_order@.len() - i,
        {
            assert(self.cond.topo_order@.contains(self.cond.topo_order@[i as int]));
            self.find_component(&mut p, self.cond.topo_order[i]);
            i += 1;
        }
        p
    }

    fn is_same_comp(&self, r: RecipeId, m: MaterialId) -> (b: bool)
        requires
            self.ok(),
            r < self.g.r_count(),
            m < self.g.m_count(),
        ensures
            b == self.same_comp(r, m),
    {
        self.cond.comp_of_recipe[r as usize] == self.cond.comp_of_material[m as usize]
    }

    fn is_replacing(
        &self,
        anchor: Option<RecipeId>,
        m: MaterialId,
        rid: RecipeId,
        score: Scalar,
        cur: RecipeId,
        cur_score: Scalar,
    ) -> (b: bool)
        requires
            self.ok(),
            rid < self.g.r_count(),
            cur < self.g.r_count(),
            m < self.g.m_count(),
        ensures
            b == self.replaces(anchor, m, rid, score, cur, cur_score),
    {
        if clearly_less(self.ar, score, cur_score) {
            return true;
        }
        if !tied(self.ar, score, cur_score) {
            return false;
        }
        let (cand_is_anchor, cur_is_anchor) = match anchor {
            Some(a) => (a == rid, a == cur),
            None => (false, false),
        };
        if cand_is_anchor != cur_is_anchor {
            return cand_is_anchor;
        }
        let cand_rec = self.g.is_recycling(rid);
        let cur_rec = self.g.is_recycling(cur);
        if cand_rec != cur_rec {
            return cur_rec;
        }
        let d: u32 = recipe_depth(self.depth, self.g.recipe(rid));
        let cd: u32 = recipe_depth(self.depth, self.g.recipe(cur));
        if d != cd {
            return d < cd;
        }
        self.is_same_comp(cur, m) && !self.is_same_comp(rid, m)
    }

    /// Offers a recipe for one of its products.
    fn make_offer(
        &self,
        base: &PriceTable,
        p: &mut PickTable,
        rid: RecipeId,
        rc: CostVector,
        m: MaterialId,
        oq: u64,
    )
        requires
            self.ok(),
            base.sized(self.g.m_count()),
            old(p).fits(*self.g),
            m < self.g.m_count(),
            makes(*self.g, rid, m),
        ensures
            final(p).fits(*self.g),
            final(p)@ == self.offer(base@, old(p)@, rid, rc, (m, oq)),
    {
        let nq = mat_norm_qty(self.ar, self.g, m, oq);
        if self.ar.le(nq, self.ar.ratio(0, 1)) || base.is_fixed(m) {
            return;
        }
        let c = rc.per_unit(self.ar, nq);
        let cs = c.score(self.ar, &self.w);
        let better = match p.best[m as usize] {
            None => true,
            Some(cur) => {
                assert(makes(*self.g, cur, m as int as u32));
                self.is_replacing(base.anchor[m as usize], m, rid, cs, cur, p.score[m as usize])
            },
        };
        if better {
            let ghost before = *p;
            p.score[m as usize] = cs;
            p.best[m as usize] = Some(rid);
            p.costs[m as usize] = c;
            assert forall|k: int| 0 <= k < self.g.m_count() implies (#[trigger] p.best@[k] matches Some(
                r,
            ) ==> makes(*self.g, r, k as u32)) by {
                assert(m as int as u32 == m);
                let t = before.best@[k];
            }
        }
    }

    /// Offers a recipe for all its products.
    fn make_offers(
        &self,
        base: &PriceTable,
        p: &mut PickTable,
        rid: RecipeId,
        rc: CostVector,
    )
        requires
            self.ok(),
            base.sized(self.g.m_count()),
            old(p).fits(*self.g),
            rid < self.g.r_count(),
            self.g.plannable@[rid as int],
            self.g.recipes@[rid as int].inputs@.len() > 0,
        ensures
            final(p).fits(*self.g),
            final(p)@ == self.offer_slots(
                base@,
                old(p)@,
                rid,
                rc,
                self.g.recipes@[rid as int].outputs@,
                self.g.recipes@[rid as int].outputs@.len() as int,
            ),
    {
        let ghost start = p@;
        let slots = &self.g.recipe(rid).outputs;
        let mut s: usize = 0;
        while s < slots.len()
            invariant
                s <= slots@.len(),
                self.ok(),
                base.sized(self.g.m_count()),
                p.fits(*self.g),
                rid < self.g.r_count(),
                self.g.plannable@[rid as int],
                self.g.recipes@[rid as int].inputs@.len() > 0,
                slots@ == self.g.recipes@[rid as int].outputs@,
                p@ == self.offer_slots(base@, start, rid, rc, slots@, s as int),
            decreases slots@.len() - s,
        {
            let ghost mid = p@;
            let alts = &slots[s].alts;
            assert(crate::graph::slot_ok(slots@[s as int], self.g.m_count()));
            let mut a: usize = 0;
            while a < alts.len()
                invariant
                    s < slots@.len(),
                    alts@ == slots@[s as int].alts@,
                    a <= alts@.len(),
                    crate::graph::slot_ok(slots@[s as int], self.g.m_count()),
                    self.ok(),
                    base.sized(self.g.m_count()),
                    p.fits(*self.g),
                    rid < self.g.r_count(),
                    self.g.plannable@[rid as int],
                    self.g.recipes@[rid as int].inputs@.len() > 0,
                    slots@ == self.g.recipes@[rid as int].outputs@,
                    p@ == self.offer_alts(base@, mid, rid, rc, alts@, a as int),
                decreases alts@.len() - a,
            {
                let (m, oq): (u32, u64) = alts[a];
                assert(crate::graph::mentions_at(slots@, m, s as int, a as int));
                self.make_offer(base, p, rid, rc, m, oq);
                a += 1;
            }
            s += 1;
        }
    }

    /// Picks the best recipe of each material, and the costs that go with it.
    fn find_picks(&self) -> (p: PickTable)
        requires
            self.ok(),
        ensures
            p.fits(*self.g),
            p@ == self.result(),
    {
        let n: usize = self.g.materials.len();
        let base = self.find_prices();
        let ghost priced = base@;
        let mut p = PickTable {
            best: filled(n, None),
            score: filled(n, self.ar.infinity()),
            costs: base.costs.clone(),
        };
        let ghost start = p@;
        assert(p@.best =~= self.no_picks(priced.costs).best);
        assert(p@.score =~= self.no_picks(priced.costs).score);
        let mut i: usize = 0;
        while i < self.g.recipes.len()
            invariant
                i <= self.g.r_count(),
                self.ok(),
                base.sized(self.g.m_count()),
                p.fits(*self.g),
                p@ == self.picks(base@, start, i as int),
            decreases self.g.r_count() - i,
        {
            let r = &self.g.recipes[i];
            let rid: u32 = i as u32;
            if self.g.is_plannable(rid) && r.inputs.len() > 0 {
                let rc = recipe_cost_vec(
                    self.ar,
                    self.g,
                    &p.costs,
                    &self.w,
                    r,
                    penalty_of(self.ar, self.g, rid),
                    Usable::Any,
                );
                if let Some(rc) = rc {
                    self.make_offers(&base, &mut p, rid, rc);
                }
            }
            i += 1;
        }
        p
    }
}

/// What materials cost, how deep they are, and how they are best made.
pub struct CostDb {
    /// The cost of each material by its best recipe.
    pub vectors: Vec<CostVector>,
    /// The weighted sum of each cost.
    pub unit_cost: Vec<Scalar>,
    pub depth: Vec<u32>,
    pub best_recipe: Vec<Option<RecipeId>>,
    pub cyclic: Vec<bool>,
    pub iterations: usize,
    pub converged: bool,
    pub weights: CostWeights,
}

impl CostDb {
    /// There is one entry for each material, scores belong to their costs, and
    /// the best recipe of a material can be planned with and produces it.
    pub open spec fn fits<A: Arithmetic>(self, ar: A, g: KnowledgeGraph) -> bool {
        &&& self.vectors@.len() == g.m_count()
        &&& self.unit_cost@.len() == g.m_count()
        &&& self.depth@.len() == g.m_count()
        &&& self.best_recipe@.len() == g.m_count()
        &&& self.cyclic@.len() == g.m_count()
        &&& forall|m: int|
            0 <= m < g.m_count() ==> #[trigger] self.unit_cost@[m] == self.vectors@[m].score_spec(
                ar,
                self.weights,
            )
        &&& forall|m: int|
            0 <= m < g.m_count() ==> (#[trigger] self.best_recipe@[m] matches Some(r) ==> makes(
                g,
                r,
                m as u32,
            ))
    }
}

/// The depths: sweeps over all recipes until nothing changes, at most
/// `max_iters`.
fn find_depths(g: &KnowledgeGraph, max_iters: usize) -> (r: (Vec<u32>, usize, bool))
    requires
        g.wf(),
    ensures
        r.0@.len() == g.m_count(),
        (r.0@, r.1 as nat, r.2) == sweeps(*g, first_depths(*g), max_iters as nat),
        r.2 ==> sweep(*g, r.0@) == r.0@,
{
    let n: usize = g.materials.len();
    let mut depth: Vec<u32> = Vec::new();
    let mut m: usize = 0;
    while m < n
        invariant
            m <= n,
            n == g.m_count(),
            g.wf(),
            depth@ == first_depths(*g).take(m as int),
        decreases n - m,
    {
        let d: u32 = if g.is_source(m as u32) {
            0
        } else {
            u32::MAX
        };
        depth.push(d);
        m += 1;
        assert(depth@ =~= first_depths(*g).take(m as int));
    }
    assert(depth@ =~= first_depths(*g));
    let mut iterations: usize = 0;
    let mut converged = false;
    while iterations < max_iters && !converged
        invariant
            iterations <= max_iters,
            g.wf(),
            depth@.len() == g.m_count(),
            converged ==> sweep(*g, depth@) == depth@,
            ({
                let (d, k, c) = sweeps(*g, first_depths(*g), max_iters as nat);
                if converged {
                    (d, k, c) == (depth@, iterations as nat, true)
                } else {
                    let (e, j, b) = sweeps(*g, depth@, (max_iters - iterations) as nat);
                    (d, k, c) == (e, j + iterations as nat, b)
                }
            }),
        decreases max_iters - iterations,
    {
        let ghost before = depth@;
        let changed = sweep_once(g, &mut depth);
        if !changed {
            converged = true;
        }
        iterations += 1;
    }
    (depth, iterations, converged)
}

/// Works out the costs of all materials.
pub fn build<A: Arithmetic>(
    ar: &A,
    g: &KnowledgeGraph,
    cond: &Condensation,
    max_iters: usize,
    weights: CostWeights,
) -> (r: CostDb)
    requires
        g.wf(),
        cond.fits(*g),
    ensures
        r.fits(*ar, *g),
        r.weights == weights,
        (r.depth@, r.iterations as nat, r.converged) == sweeps(
            *g,
            first_depths(*g),
            max_iters as nat,
        ),
        r.converged ==> sweep(*g, r.depth@) == r.depth@,
        forall|m: int|
            0 <= m < g.m_count() ==> #[trigger] r.cyclic@[m]
                == cond.cyclic@[cond.comp_of_material@[m] as int],
        r.vectors@ == (Setting { ar, g, cond, depth: &r.depth, w: weights }).result().costs,
        r.best_recipe@ == (Setting { ar, g, cond, depth: &r.depth, w: weights }).result().best,
        forall|m: MaterialId|
            m < g.m_count() && #[trigger] (Setting {
                ar,
                g,
                cond,
                depth: &r.depth,
                w: weights,
            }).of_the_world(m) ==> r.vectors@[m as int] == CostVector::raw_spec(*ar)
                && r.best_recipe@[m as int] is None,
{
    let n: usize = g.materials.len();
    let mut cyclic: Vec<bool> = Vec::new();
    let mut m: usize = 0;
    while m < n
        invariant
            m <= n,
            n == g.m_count(),
            g.wf(),
            cond.fits(*g),
            cyclic@.len() == m,
            forall|k: int|
                0 <= k < m ==> #[trigger] cyclic@[k] == cond.cyclic@[cond.comp_of_material@[k] as int],
        decreases n - m,
    {
        cyclic.push(cond.material_cyclic(m as u32));
        m += 1;
    }
    let (depth, iterations, converged) = find_depths(g, max_iters);
    let setting = Setting { ar, g, cond, depth: &depth, w: weights };
    let picks = setting.find_picks();
    proof {
        assert forall|m: MaterialId| m < g.m_count() && #[trigger] setting.of_the_world(m) implies
            picks.costs@[m as int] == CostVector::raw_spec(*ar) && picks.best@[m as int] is None by {
            if g.source_spec(m) {
                setting.sources_are_raw(m);
            } else {
                setting.closed_components_are_raw(cond.comp_of_material@[m as int], m);
            }
        }
    }
    let vectors = picks.costs;
    let mut unit_cost: Vec<Scalar> = Vec::new();
    let mut m: usize = 0;
    while m < n
        invariant
            m <= n,
            n == vectors@.len(),
            unit_cost@.len() == m,
            forall|k: int|
                0 <= k < m ==> #[trigger] unit_cost@[k] == vectors@[k].score_spec(*ar, weights),
        decreases n - m,
    {
        unit_cost.push(vectors[m].score(ar, &weights));
        m += 1;
    }
    CostDb {
        vectors,
        unit_cost,
        depth,
        best_recipe: picks.best,
        cyclic,
        iterations,
        converged,
        weights,
    }
}

} // verus!

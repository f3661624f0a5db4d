//! Expansion of a demand into recipes and raw materials.
//!
//! 1. Demands wait in a queue; each material is made by its best recipe, or by
//!    the one that was chosen for it.
//! 2. On a cycle a material keeps its recipe, and more of it is made as demand
//!    comes back.
//! 3. What a recipe makes besides settles raw material, then demand, and is a
//!    by-product for the rest.
//! 4. An input slot takes its cheapest candidate.
//!
//! Rates count pieces of an item and mB of a fluid.
use std::collections::VecDeque;

use vstd::prelude::*;

use crate::analysis::Analysis;
use crate::choices::Choices;
use crate::graph::KnowledgeGraph;
use crate::list::filled;
use crate::model::{MaterialId, MaterialKind, RecipeId, Slot};
use crate::plan::{Plan, PlanMetrics};
use crate::planner::assemble::Assembly;
use crate::scalar::{Arithmetic, Scalar};
use crate::text::{decimal_string, is_text_before, joined, same};
use crate::util::{cheapest_alt, mat_norm_qty, output_qty_of, recipe_cost, tier_allowed};

verus! {

/// What is to be planned.
#[derive(Clone, Debug)]
pub struct PlanRequest {
    pub target: MaterialId,
    /// Pieces of an item or mB of a fluid per minute.
    pub rate_per_min: Scalar,
    /// How many expansions there may be.
    pub max_ops: usize,
    /// The highest tier of machines; none means no limit.
    pub max_tier: Option<u8>,
}

impl PlanRequest {
    pub fn new(target: MaterialId, rate_per_min: Scalar) -> (r: Self)
        ensures
            r == (PlanRequest { target, rate_per_min, max_ops: 200_000, max_tier: None }),
    {
        PlanRequest { target, rate_per_min, max_ops: 200_000, max_tier: None }
    }
}

/// Less than this counts as nothing.
pub open spec fn eps<A: Arithmetic>(ar: A) -> Scalar {
    ar.ratio_spec(1, 1_000_000_000)
}

/// A rate in comparable units: buckets for mB of a fluid.
pub open spec fn norm_rate_spec<A: Arithmetic>(ar: A, kind: MaterialKind, rate: Scalar) -> Scalar {
    if kind is Fluid {
        ar.over_spec(rate, ar.ratio_spec(1000, 1))
    } else {
        rate
    }
}

/// A rate in comparable units: buckets for mB of a fluid.
pub fn norm_rate<A: Arithmetic>(ar: &A, kind: MaterialKind, rate: Scalar) -> (r: Scalar)
    ensures
        r == norm_rate_spec(*ar, kind, rate),
{
    match kind {
        MaterialKind::Fluid => ar.over(rate, ar.ratio(1000, 1)),
        _ => rate,
    }
}

/// The notes after a message; a message is noted once.
pub open spec fn noted(notes: Seq<Seq<char>>, msg: Seq<char>) -> Seq<Seq<char>> {
    if notes.contains(msg) {
        notes
    } else {
        notes.push(msg)
    }
}

/// Notes a message, once.
pub fn note(notes: &mut Vec<String>, msg: String)
    ensures
        crate::intern::texts(final(notes)@) == noted(crate::intern::texts(old(notes)@), msg@),
{
    let ghost start = crate::intern::texts(notes@);
    let mut i: usize = 0;
    while i < notes.len()
        invariant
            i <= notes@.len(),
            start == crate::intern::texts(notes@),
            forall|k: int| 0 <= k < i ==> start[k] != msg@,
        decreases notes@.len() - i,
    {
        if same(notes[i].as_str(), msg.as_str()) {
            assert(start[i as int] == msg@);
            return;
        }
        assert(start[i as int] == notes@[i as int]@);
        i += 1;
    }
    let ghost text = msg@;
    notes.push(msg);
    assert(crate::intern::texts(notes@) =~= start.push(text));
}

/// Expands demands of a graph.
pub struct Expansion<'a, A> {
    pub ar: &'a A,
    pub g: &'a KnowledgeGraph,
    pub an: &'a Analysis,
    pub req: &'a PlanRequest,
}

/// An expansion on its way.
pub struct Tree {
    pub demand: Seq<Scalar>,
    pub raw: Seq<Scalar>,
    pub byproduct: Seq<Scalar>,
    pub chosen: Seq<Option<RecipeId>>,
    pub ops: Seq<Scalar>,
    pub queued: Seq<bool>,
    pub queue: Seq<MaterialId>,
    /// How often each material was taken up, counted up to 17.
    pub visits: Seq<u16>,
    pub limit_hit: bool,
    /// Materials that nothing can make.
    pub no_route: Seq<MaterialId>,
    pub expansions: nat,
    /// The expansion was broken off.
    pub truncated: bool,
    pub notes: Seq<Seq<char>>,
}

impl Tree {
    /// Nothing is left to do.
    pub open spec fn done(self) -> bool {
        self.truncated || self.queue.len() == 0
    }

    /// `qty` of material `m` comes from outside.
    pub open spec fn take_raw<A: Arithmetic>(self, ar: A, m: MaterialId, qty: Scalar) -> Tree {
        Tree { raw: self.raw.update(m as int, ar.plus_spec(self.raw[m as int], qty)), ..self }
    }

    /// `qty` of material `m` is wanted.
    pub open spec fn want<A: Arithmetic>(self, ar: A, m: MaterialId, qty: Scalar) -> Tree {
        if !ar.finite_spec(qty) || ar.le_spec(qty, eps(ar)) {
            self
        } else {
            Tree {
                demand: self.demand.update(m as int, ar.plus_spec(self.demand[m as int], qty)),
                queue: if self.queued[m as int] { self.queue } else { self.queue.push(m) },
                queued: self.queued.update(m as int, true),
                ..self
            }
        }
    }

    /// `left` of material `m` was made besides: it settles raw material, then
    /// demand, and the rest is a by-product.
    pub open spec fn give<A: Arithmetic>(self, ar: A, m: MaterialId, left: Scalar) -> Tree {
        let i = m as int;
        if ar.le_spec(left, eps(ar)) {
            self
        } else {
            let used_raw = ar.least_spec(left, self.raw[i]);
            let on_raw = ar.lt_spec(eps(ar), self.raw[i]);
            let left1 = if on_raw { ar.minus_spec(left, used_raw) } else { left };
            let raw1 = if on_raw {
                self.raw.update(i, ar.minus_spec(self.raw[i], used_raw))
            } else {
                self.raw
            };
            let on_demand = ar.lt_spec(eps(ar), left1) && ar.lt_spec(eps(ar), self.demand[i]);
            let used = ar.least_spec(left1, self.demand[i]);
            let left2 = if on_demand { ar.minus_spec(left1, used) } else { left1 };
            let demand1 = if on_demand {
                self.demand.update(i, ar.minus_spec(self.demand[i], used))
            } else {
                self.demand
            };
            let byproduct1 = if ar.lt_spec(eps(ar), left2) {
                self.byproduct.update(i, ar.plus_spec(self.byproduct[i], left2))
            } else {
                self.byproduct
            };
            Tree { raw: raw1, demand: demand1, byproduct: byproduct1, ..self }
        }
    }
}

impl<'a, A: Arithmetic> Expansion<'a, A> {
    pub open spec fn ok(self) -> bool {
        &&& self.an.fits(*self.ar, *self.g)
        &&& self.req.target < self.g.m_count()
    }

    /// What a unit of `m` costs by recipe `rid`, where that can be used.
    pub open spec fn unit_price(self, m: MaterialId, rid: RecipeId) -> Option<Scalar> {
        let r = self.g.recipes@[rid as int];
        let rc = crate::util::recipe_cost_spec(
            *self.ar,
            *self.g,
            self.an.cost.unit_cost@,
            Some(self.an.cost.cyclic@),
            r,
        );
        match crate::util::qty_in(r.outputs@, m) {
            Some(q) => {
                let nq = crate::util::mat_norm_spec(*self.ar, *self.g, m, q);
                if self.g.plannable@[rid as int] && crate::util::tier_allowed_spec(
                    *self.g,
                    rid,
                    self.req.max_tier,
                ) && r.inputs@.len() > 0 && self.ar.finite_spec(rc) && !self.ar.le_spec(
                    nq,
                    self.ar.ratio_spec(0, 1),
                ) {
                    Some(self.ar.over_spec(rc, nq))
                } else {
                    None
                }
            },
            None => None,
        }
    }

    /// The cheapest of the first `i` producers of `m`, with its price.
    pub open spec fn cheapest_to(self, m: MaterialId, i: int) -> Option<(Scalar, RecipeId)>
        decreases i,
    {
        if i <= 0 {
            None
        } else {
            let best = self.cheapest_to(m, i - 1);
            let rid = self.g.producers@[m as int]@[i - 1];
            match self.unit_price(m, rid) {
                Some(per) => match best {
                    Some((b, _)) => if self.ar.lt_spec(per, b) {
                        Some((per, rid))
                    } else {
                        best
                    },
                    None => Some((per, rid)),
                },
                None => best,
            }
        }
    }

    /// A material is priced, but has no recipe: it is a resource of the world.
    pub open spec fn of_the_world(self, m: MaterialId) -> bool {
        self.an.cost.best_recipe@[m as int] is None
            && self.an.cost.vectors@[m as int].finite_spec(*self.ar)
    }

    /// The recipe for a material: the best one if its tier is allowed, otherwise
    /// the cheapest whose tier is. A resource of the world has none.
    pub open spec fn pick(self, m: MaterialId) -> Option<RecipeId> {
        match self.an.cost.best_recipe@[m as int] {
            Some(best) if crate::util::tier_allowed_spec(*self.g, best, self.req.max_tier) => Some(
                best,
            ),
            _ => if self.of_the_world(m) {
                None
            } else {
                match self.cheapest_to(m, self.g.producers@[m as int]@.len() as int) {
                    Some((_, rid)) => Some(rid),
                    None => None,
                }
            },
        }
    }

    fn pick_best_recipe(&self, m: MaterialId) -> (r: Option<RecipeId>)
        requires
            self.ok(),
            m < self.g.m_count(),
        ensures
            r == self.pick(m),
            r matches Some(rid) ==> rid < self.g.r_count(),
    {
        let g = self.g;
        if let Some(best) = self.an.cost.best_recipe[m as usize] {
            assert(crate::algo::cost::makes(*g, best, m as int as u32));
            if tier_allowed(g, best, self.req.max_tier) {
                return Some(best);
            }
        } else if self.an.cost.vectors[m as usize].is_finite(self.ar) {
            return None;
        }
        let zero = self.ar.ratio(0, 1);
        let prods = &g.producers[m as usize];
        let mut best: Option<(Scalar, RecipeId)> = None;
        let mut i: usize = 0;
        while i < prods.len()
            invariant
                i <= prods@.len(),
                self.ok(),
                g == self.g,
                m < g.m_count(),
                zero == self.ar.ratio_spec(0, 1),
                prods@ == g.producers@[m as int]@,
                best == self.cheapest_to(m, i as int),
                best matches Some((_, rid)) ==> rid < g.r_count(),
            decreases prods@.len() - i,
        {
            let rid: u32 = prods[i];
            proof {
                let p = |r: int| g.produces(r, m as int as u32);
                assert(crate::graph::lists(g.producers@[m as int]@, g.r_count(), p));
            }
            let r = g.recipe(rid);
            if g.is_plannable(rid) && tier_allowed(g, rid, self.req.max_tier) && r.inputs.len()
                > 0 {
                if let Some(oq) = output_qty_of(r, m) {
                    let rc = recipe_cost(
                        self.ar,
                        g,
                        &self.an.cost.unit_cost,
                        Some(&self.an.cost.cyclic),
                        r,
                    );
                    let nq = mat_norm_qty(self.ar, g, m, oq);
                    if self.ar.is_finite(rc) && !self.ar.le(nq, zero) {
                        let per = self.ar.over(rc, nq);
                        let better = match best {
                            Some((b, _)) => self.ar.lt(per, b),
                            None => true,
                        };
                        if better {
                            best = Some((per, rid));
                        }
                    }
                }
            }
            i += 1;
        }
        match best {
            Some((_, rid)) => Some(rid),
            None => None,
        }
    }

    /// The tree after the first `s` output slots of a recipe, of which `ops_add`
    /// operations make `m`, gave what they make besides.
    pub open spec fn give_to(self, t: Tree, m: MaterialId, rid: RecipeId, ops_add: Scalar, s: int) -> Tree
        decreases s,
    {
        if s <= 0 {
            t
        } else {
            let u = self.give_to(t, m, rid, ops_add, s - 1);
            match self.g.recipes@[rid as int].outputs@[s - 1].primary_spec() {
                Some((om, oq)) => if om == m {
                    u
                } else {
                    u.give(
                        *self.ar,
                        om,
                        self.ar.times_spec(
                            self.ar.times_spec(ops_add, self.ar.ratio_spec(oq, 1)),
                            self.g.output_chance_spec(*self.ar, rid, om),
                        ),
                    )
                },
                None => u,
            }
        }
    }

    /// The tree after the first `s` input slots of a recipe were asked for.
    pub open spec fn want_to(self, t: Tree, slots: Seq<Slot>, ops_add: Scalar, s: int) -> Tree
        decreases s,
    {
        if s <= 0 {
            t
        } else {
            let u = self.want_to(t, slots, ops_add, s - 1);
            match crate::util::cheapest_spec(
                *self.ar,
                *self.g,
                self.an.cost.unit_cost@,
                Some(self.an.cost.cyclic@),
                slots[s - 1],
            ) {
                Some((am, aq)) => u.want(
                    *self.ar,
                    am,
                    self.ar.times_spec(ops_add, self.ar.ratio_spec(aq, 1)),
                ),
                None => u,
            }
        }
    }

    /// How many operations of `rid` make `qty` of `m`.
    pub open spec fn ops_for(self, m: MaterialId, rid: RecipeId, out_q: u64, qty: Scalar) -> Scalar {
        self.ar.over_spec(
            qty,
            self.ar.times_spec(
                self.ar.ratio_spec(out_q, 1),
                self.g.output_chance_spec(*self.ar, rid, m),
            ),
        )
    }

    /// The tree after `qty` of `m` is made by recipe `rid`.
    pub open spec fn make(self, t: Tree, m: MaterialId, rid: RecipeId, out_q: u64, qty: Scalar) -> Tree {
        let r = self.g.recipes@[rid as int];
        let ops_add = self.ops_for(m, rid, out_q, qty);
        let t1 = Tree {
            expansions: t.expansions + 1,
            ops: t.ops.update(rid as int, self.ar.plus_spec(t.ops[rid as int], ops_add)),
            ..t
        };
        let t2 = self.give_to(t1, m, rid, ops_add, r.outputs@.len() as int);
        self.want_to(t2, r.inputs@, ops_add, r.inputs@.len() as int)
    }

    /// The tree after `qty` of `m` is made by recipe `rid`, or comes from outside
    /// where the recipe does not make it, or the expansion is broken off.
    pub open spec fn make_by(self, t: Tree, m: MaterialId, rid: RecipeId, qty: Scalar) -> Tree {
        match crate::util::qty_in(self.g.recipes@[rid as int].outputs@, m) {
            None => Tree {
                notes: noted(
                    t.notes,
                    "配方 "@ + self.g.full_id(rid) + " 不产出目标材料，已按原料处理"@,
                ),
                ..t
            }.take_raw(*self.ar, m, qty),
            Some(out_q) => if t.expansions >= self.req.max_ops {
                Tree {
                    truncated: true,
                    notes: noted(
                        t.notes,
                        "展开次数达到上限 "@ + crate::text::decimal(self.req.max_ops as nat)
                            + "，计划可能不完整"@,
                    ),
                    ..t
                }
            } else {
                self.make(t, m, rid, out_q, qty)
            },
        }
    }

    /// The tree after the demand `qty` of `m` was taken up.
    pub open spec fn serve(self, t: Tree, m: MaterialId, qty: Scalar) -> Tree {
        let i = m as int;
        let t1 = Tree {
            visits: t.visits.update(
                i,
                if t.visits[i] < 17 {
                    (t.visits[i] + 1) as u16
                } else {
                    t.visits[i]
                },
            ),
            ..t
        };
        if t1.visits[i] > 16 {
            Tree { limit_hit: true, ..t1 }.take_raw(*self.ar, m, qty)
        } else if self.g.source_spec(m) {
            t1.take_raw(*self.ar, m, qty)
        } else {
            match t1.chosen[i] {
                Some(rid) => self.make_by(t1, m, rid, qty),
                None => match self.pick(m) {
                    Some(rid) => self.make_by(
                        Tree { chosen: t1.chosen.update(i, Some(rid)), ..t1 },
                        m,
                        rid,
                        qty,
                    ),
                    None => Tree {
                        no_route: if self.g.harvestable@[i] {
                            t1.no_route
                        } else {
                            t1.no_route.push(m)
                        },
                        ..t1
                    }.take_raw(*self.ar, m, qty),
                },
            }
        }
    }

    /// The tree after the first demand of the queue was taken up.
    pub open spec fn step(self, t: Tree) -> Tree {
        let m = t.queue[0];
        let i = m as int;
        let qty = t.demand[i];
        let t1 = Tree {
            queue: t.queue.drop_first(),
            queued: t.queued.update(i, false),
            demand: t.demand.update(i, self.ar.ratio_spec(0, 1)),
            ..t
        };
        if self.ar.le_spec(qty, eps(*self.ar)) {
            t1
        } else if !self.ar.finite_spec(qty) || self.ar.lt_spec(
            self.ar.ratio_spec(1_000_000_000_000_000, 1),
            qty,
        ) {
            Tree {
                truncated: true,
                notes: noted(
                    t1.notes,
                    "需求发散（"@ + self.g.id_text(m) + " 达到 "@ + self.ar.scientific_spec(qty)@
                        + "），已中止展开"@,
                ),
                ..t1
            }
        } else {
            self.serve(t1, m, qty)
        }
    }

    /// The tree before any step.
    pub open spec fn start(self, overrides: Seq<(MaterialId, RecipeId)>) -> Tree {
        let n = self.g.m_count() as nat;
        let zero = self.ar.ratio_spec(0, 1);
        Tree {
            demand: Seq::new(n, |m: int| zero),
            raw: Seq::new(n, |m: int| zero),
            byproduct: Seq::new(n, |m: int| zero),
            chosen: Seq::new(n, |m: int| crate::choices::chosen_in(overrides, m as u32)),
            ops: Seq::new(self.g.r_count() as nat, |r: int| zero),
            queued: Seq::new(n, |m: int| false),
            queue: Seq::empty(),
            visits: Seq::new(n, |m: int| 0u16),
            limit_hit: false,
            no_route: Seq::empty(),
            expansions: 0,
            truncated: false,
            notes: Seq::empty(),
        }.want(*self.ar, self.req.target, self.req.rate_per_min)
    }

    /// The tree after `k` steps, or fewer where nothing is left to do.
    pub open spec fn after(self, t: Tree, k: nat) -> Tree
        decreases k,
    {
        if k == 0 || t.done() {
            t
        } else {
            self.after(self.step(t), (k - 1) as nat)
        }
    }
}

/// An expansion on its way.
struct Work {
    demand: Vec<Scalar>,
    raw: Vec<Scalar>,
    byproduct: Vec<Scalar>,
    chosen: Vec<Option<RecipeId>>,
    ops: Vec<Scalar>,
    queued: Vec<bool>,
    queue: VecDeque<MaterialId>,
    visits: Vec<u16>,
    limit_hit: bool,
    no_route: Vec<MaterialId>,
    expansions: usize,
    truncated: bool,
    notes: Vec<String>,
}

impl View for Work {
    type V = Tree;

    closed spec fn view(&self) -> Tree {
        Tree {
            demand: self.demand@,
            raw: self.raw@,
            byproduct: self.byproduct@,
            chosen: self.chosen@,
            ops: self.ops@,
            queued: self.queued@,
            queue: self.queue@,
            visits: self.visits@,
            limit_hit: self.limit_hit,
            no_route: self.no_route@,
            expansions: self.expansions as nat,
            truncated: self.truncated,
            notes: crate::intern::texts(self.notes@),
        }
    }
}

/// How many more visits the limit leaves.
spec fn room(visits: Seq<u16>) -> nat
    decreases visits.len(),
{
    if visits.len() == 0 {
        0
    } else {
        room(visits.drop_last()) + (17 - visits.last()) as nat
    }
}

proof fn room_update(visits: Seq<u16>, i: int)
    requires
        0 <= i < visits.len(),
        visits[i] < 17,
        forall|k: int| 0 <= k < visits.len() ==> #[trigger] visits[k] <= 17,
    ensures
        room(visits.update(i, (visits[i] + 1) as u16)) + 1 == room(visits),
    decreases visits.len(),
{
    let next = visits.update(i, (visits[i] + 1) as u16);
    if i == visits.len() - 1 {
        assert(next.drop_last() =~= visits.drop_last());
    } else {
        assert(next.drop_last() =~= visits.drop_last().update(i, (visits[i] + 1) as u16));
        room_update(visits.drop_last(), i);
    }
}

impl Work {
    spec fn sized(self, g: KnowledgeGraph) -> bool {
        &&& self.demand@.len() == g.m_count()
        &&& self.raw@.len() == g.m_count()
        &&& self.byproduct@.len() == g.m_count()
        &&& self.chosen@.len() == g.m_count()
        &&& self.ops@.len() == g.r_count()
        &&& self.queued@.len() == g.m_count()
        &&& self.visits@.len() == g.m_count()
        &&& forall|i: int| 0 <= i < self.queue@.len() ==> #[trigger] self.queue@[i] < g.m_count()
        &&& forall|i: int| 0 <= i < g.m_count() ==> #[trigger] self.visits@[i] <= 17
        &&& forall|i: int|
            0 <= i < g.m_count() ==> (#[trigger] self.chosen@[i] matches Some(r) ==> r
                < g.r_count())
        &&& forall|i: int|
            0 <= i < self.no_route@.len() ==> #[trigger] self.no_route@[i] < g.m_count()
    }

    fn take_raw<A: Arithmetic>(&mut self, ar: &A, m: MaterialId, qty: Scalar)
        requires
            m < old(self).raw@.len(),
        ensures
            final(self)@ == old(self)@.take_raw(*ar, m, qty),
            forall|g: KnowledgeGraph| old(self).sized(g) ==> #[trigger] final(self).sized(g),
    {
        let sum = ar.plus(self.raw[m as usize], qty);
        self.raw[m as usize] = sum;
    }

    fn want<A: Arithmetic>(&mut self, ar: &A, g: &KnowledgeGraph, m: MaterialId, qty: Scalar)
        requires
            old(self).sized(*g),
            m < g.m_count(),
        ensures
            final(self)@ == old(self)@.want(*ar, m, qty),
            final(self).sized(*g),
            final(self).visits@ == old(self).visits@,
    {
        let eps = ar.ratio(1, 1_000_000_000);
        if !ar.is_finite(qty) || ar.le(qty, eps) {
            return;
        }
        let sum = ar.plus(self.demand[m as usize], qty);
        self.demand[m as usize] = sum;
        if !self.queued[m as usize] {
            self.queued[m as usize] = true;
            self.queue.push_back(m);
        } else {
            assert(self.queued@ =~= self.queued@.update(m as int, true));
        }
    }

    fn give<A: Arithmetic>(&mut self, ar: &A, g: &KnowledgeGraph, m: MaterialId, left: Scalar)
        requires
            old(self).sized(*g),
            m < g.m_count(),
        ensures
            final(self)@ == old(self)@.give(*ar, m, left),
            final(self).sized(*g),
            final(self).visits@ == old(self).visits@,
    {
        let eps = ar.ratio(1, 1_000_000_000);
        let i: usize = m as usize;
        let mut left = left;
        if ar.le(left, eps) {
            return;
        }
        if ar.lt(eps, self.raw[i]) {
            let used = ar.least(left, self.raw[i]);
            let rest = ar.minus(self.raw[i], used);
            self.raw[i] = rest;
            left = ar.minus(left, used);
        }
        if ar.lt(eps, left) && ar.lt(eps, self.demand[i]) {
            let used = ar.least(left, self.demand[i]);
            let rest = ar.minus(self.demand[i], used);
            self.demand[i] = rest;
            left = ar.minus(left, used);
        }
        if ar.lt(eps, left) {
            let sum = ar.plus(self.byproduct[i], left);
            self.byproduct[i] = sum;
        }
    }
}

impl<'a, A: Arithmetic> Expansion<'a, A> {
    /// Makes `qty` of `m` by recipe `rid`.
    fn run_make(&self, w: &mut Work, m: MaterialId, rid: RecipeId, out_q: u64, qty: Scalar)
        requires
            self.ok(),
            old(w).sized(*self.g),
            old(w).expansions < usize::MAX,
            m < self.g.m_count(),
            rid < self.g.r_count(),
        ensures
            final(w).sized(*self.g),
            final(w)@ == self.make(old(w)@, m, rid, out_q, qty),
            final(w).visits@ == old(w).visits@,
    {
        let ar = self.ar;
        let g = self.g;
        let r = g.recipe(rid);
        let ghost t = w@;
        w.expansions = w.expansions + 1;
        let ops_add = ar.over(qty, ar.times(ar.ratio(out_q, 1), g.output_chance(ar, rid, m)));
        let sum = ar.plus(w.ops[rid as usize], ops_add);
        w.ops[rid as usize] = sum;
        let ghost t1 = w@;
        let mut s: usize = 0;
        while s < r.outputs.len()
            invariant
                s <= r.outputs@.len(),
                self.ok(),
                ar == self.ar,
                g == self.g,
                m < g.m_count(),
                rid < g.r_count(),
                *r == g.recipes@[rid as int],
                w.sized(*g),
                w@ == self.give_to(t1, m, rid, ops_add, s as int),
                w.visits@ == t.visits,
            decreases r.outputs@.len() - s,
        {
            assert(crate::graph::slot_ok(r.outputs@[s as int], g.m_count()));
            if let Some((om, oq)) = r.outputs[s].primary() {
                if om != m {
                    assert(r.outputs@[s as int].alts@[0].0 < g.m_count());
                    let left = ar.times(
                        ar.times(ops_add, ar.ratio(oq, 1)),
                        g.output_chance(ar, rid, om),
                    );
                    w.give(ar, g, om, left);
                }
            }
            s += 1;
        }
        let ghost t2 = w@;
        let mut s: usize = 0;
        while s < r.inputs.len()
            invariant
                s <= r.inputs@.len(),
                self.ok(),
                ar == self.ar,
                g == self.g,
                rid < g.r_count(),
                *r == g.recipes@[rid as int],
                w.sized(*g),
                w@ == self.want_to(t2, r.inputs@, ops_add, s as int),
                w.visits@ == t.visits,
            decreases r.inputs@.len() - s,
        {
            assert(crate::graph::slot_ok(r.inputs@[s as int], g.m_count()));
            let alt = cheapest_alt(
                ar,
                g,
                &self.an.cost.unit_cost,
                Some(&self.an.cost.cyclic),
                &r.inputs[s],
            );
            if let Some((am, aq)) = alt {
                w.want(ar, g, am, ar.times(ops_add, ar.ratio(aq, 1)));
            }
            s += 1;
        }
    }

    fn run_make_by(&self, w: &mut Work, m: MaterialId, rid: RecipeId, qty: Scalar)
        requires
            self.ok(),
            old(w).sized(*self.g),
            old(w).expansions <= self.req.max_ops,
            m < self.g.m_count(),
            rid < self.g.r_count(),
        ensures
            final(w).sized(*self.g),
            final(w).expansions <= self.req.max_ops,
            final(w)@ == self.make_by(old(w)@, m, rid, qty),
            final(w).visits@ == old(w).visits@,
    {
        let g = self.g;
        let ghost t = w@;
        let out_q: u64 = match output_qty_of(g.recipe(rid), m) {
            Some(q) => q,
            None => {
                let msg = joined(
                    joined("配方 ", g.recipe_full_id(rid).as_str()).as_str(),
                    " 不产出目标材料，已按原料处理",
                );
                note(&mut w.notes, msg);
                w.take_raw(self.ar, m, qty);
                return;
            },
        };
        if w.expansions >= self.req.max_ops {
            w.truncated = true;
            let msg = joined(
                joined("展开次数达到上限 ", decimal_string(self.req.max_ops as u64).as_str()).as_str(),
                "，计划可能不完整",
            );
            note(&mut w.notes, msg);
            return;
        }
        proof {
            self.make_counts(t, m, rid, out_q, qty);
        }
        self.run_make(w, m, rid, out_q, qty);
    }

    proof fn give_counts(&self, t: Tree, m: MaterialId, rid: RecipeId, ops_add: Scalar, s: int)
        ensures
            self.give_to(t, m, rid, ops_add, s).expansions == t.expansions,
        decreases s,
    {
        if s > 0 {
            self.give_counts(t, m, rid, ops_add, s - 1);
        }
    }

    proof fn want_counts(&self, t: Tree, slots: Seq<Slot>, ops_add: Scalar, s: int)
        ensures
            self.want_to(t, slots, ops_add, s).expansions == t.expansions,
        decreases s,
    {
        if s > 0 {
            self.want_counts(t, slots, ops_add, s - 1);
        }
    }

    /// Making a material is one expansion.
    proof fn make_counts(&self, t: Tree, m: MaterialId, rid: RecipeId, out_q: u64, qty: Scalar)
        ensures
            self.make(t, m, rid, out_q, qty).expansions == t.expansions + 1,
    {
        let r = self.g.recipes@[rid as int];
        let ops_add = self.ops_for(m, rid, out_q, qty);
        let t1 = Tree {
            expansions: t.expansions + 1,
            ops: t.ops.update(rid as int, self.ar.plus_spec(t.ops[rid as int], ops_add)),
            ..t
        };
        self.give_counts(t1, m, rid, ops_add, r.outputs@.len() as int);
        let t2 = self.give_to(t1, m, rid, ops_add, r.outputs@.len() as int);
        self.want_counts(t2, r.inputs@, ops_add, r.inputs@.len() as int);
    }

    /// Takes up the demand `qty` of `m`.
    fn run_serve(&self, w: &mut Work, m: MaterialId, qty: Scalar)
        requires
            self.ok(),
            old(w).sized(*self.g),
            old(w).expansions <= self.req.max_ops,
            m < self.g.m_count(),
        ensures
            final(w).sized(*self.g),
            final(w).expansions <= self.req.max_ops,
            final(w)@ == self.serve(old(w)@, m, qty),
            old(w).visits@[m as int] < 17 ==> room(final(w).visits@) < room(old(w).visits@),
            old(w).visits@[m as int] >= 17 ==> final(w).visits@ == old(w).visits@
                && final(w).queue@ == old(w).queue@,
    {
        let i: usize = m as usize;
        let g = self.g;
        let ghost visits0 = w.visits@;
        if w.visits[i] < 17 {
            proof {
                room_update(visits0, m as int);
            }
            let v: u16 = w.visits[i] + 1;
            w.visits[i] = v;
        } else {
            assert(w.visits@ =~= w.visits@.update(m as int, w.visits@[m as int]));
        }
        let ghost t1 = w@;
        if w.visits[i] > 16 {
            w.limit_hit = true;
            w.take_raw(self.ar, m, qty);
            return;
        }
        if g.is_source(m) {
            w.take_raw(self.ar, m, qty);
            return;
        }
        match w.chosen[i] {
            Some(rid) => {
                self.run_make_by(w, m, rid, qty);
            },
            None => match self.pick_best_recipe(m) {
                Some(rid) => {
                    w.chosen[i] = Some(rid);
                    self.run_make_by(w, m, rid, qty);
                },
                None => {
                    if !g.harvestable[i] {
                        w.no_route.push(m);
                    }
                    w.take_raw(self.ar, m, qty);
                },
            },
        }
    }

    /// Takes up the first demand of the queue.
    fn run_step(&self, w: &mut Work)
        requires
            self.ok(),
            old(w).sized(*self.g),
            old(w).expansions <= self.req.max_ops,
            old(w).queue@.len() > 0,
        ensures
            final(w).sized(*self.g),
            final(w).expansions <= self.req.max_ops,
            final(w)@ == self.step(old(w)@),
            room(final(w).visits@) < room(old(w).visits@) || (final(w).visits@ == old(w).visits@
                && final(w).queue@.len() < old(w).queue@.len()),
    {
        let ar = self.ar;
        let ghost t = w@;
        let m: u32 = match w.queue.pop_front() {
            Some(m) => m,
            None => {
                return;
            },
        };
        assert(m == t.queue[0]);
        assert(w.queue@ =~= t.queue.drop_first());
        w.queued[m as usize] = false;
        let qty = w.demand[m as usize];
        w.demand[m as usize] = ar.ratio(0, 1);
        if ar.le(qty, ar.ratio(1, 1_000_000_000)) {
            return;
        }
        if !ar.is_finite(qty) || ar.lt(ar.ratio(1_000_000_000_000_000, 1), qty) {
            w.truncated = true;
            let head = joined(
                joined("需求发散（", self.g.material_id_str(m)).as_str(),
                " 达到 ",
            );
            let msg = joined(
                joined(head.as_str(), ar.scientific(qty).as_str()).as_str(),
                "），已中止展开",
            );
            note(&mut w.notes, msg);
            return;
        }
        self.run_serve(w, m, qty);
    }

    /// Expands until nothing is left to do.
    fn run(&self, overrides: &Choices) -> (w: Work)
        requires
            self.ok(),
            overrides.fits(*self.g),
        ensures
            w.sized(*self.g),
            w@.done(),
            exists|k: nat| w@ == #[trigger] self.after(self.start(overrides.entries@), k),
    {
        let ar = self.ar;
        let g = self.g;
        let n: usize = g.materials.len();
        let zero = ar.ratio(0, 1);
        let mut w = Work {
            demand: filled(n, zero),
            raw: filled(n, zero),
            byproduct: filled(n, zero),
            chosen: chosen_table(g, overrides),
            ops: filled(g.recipes.len(), zero),
            queued: filled(n, false),
            queue: VecDeque::new(),
            visits: filled(n, 0),
            limit_hit: false,
            no_route: Vec::new(),
            expansions: 0,
            truncated: false,
            notes: Vec::new(),
        };
        proof {
            assert(crate::intern::texts(w.notes@) =~= Seq::<Seq<char>>::empty());
            assert(w.no_route@ =~= Seq::<MaterialId>::empty());
            assert(w.queue@ =~= Seq::<MaterialId>::empty());
            assert(w.demand@ =~= Seq::new(n as nat, |m: int| zero));
            assert(w.raw@ =~= Seq::new(n as nat, |m: int| zero));
            assert(w.byproduct@ =~= Seq::new(n as nat, |m: int| zero));
        }
        w.want(ar, g, self.req.target, self.req.rate_per_min);
        let ghost start = self.start(overrides.entries@);
        assert(w@ == start);
        let ghost mut k: nat = 0;
        assert(self.after(start, 0) == start);
        while !w.truncated && w.queue.len() > 0
            invariant
                self.ok(),
                w.sized(*self.g),
                w.expansions <= self.req.max_ops,
                w@ == self.after(start, k),
            decreases room(w.visits@), w.queue@.len(),
        {
            let ghost t = w@;
            self.run_step(&mut w);
            proof {
                self.after_step(start, k);
                k = k + 1;
            }
        }
        w
    }

    /// One more step.
    pub(crate) proof fn after_step(&self, t: Tree, k: nat)
        requires
            !self.after(t, k).done(),
        ensures
            self.after(t, k + 1) == self.step(self.after(t, k)),
        decreases k,
    {
        reveal_with_fuel(Expansion::after, 2);
        if k > 0 && !t.done() {
            self.after_step(self.step(t), (k - 1) as nat);
        }
    }

    /// An expansion has one end: once nothing is left to do, further steps
    /// change nothing, and two ends are the same.
    pub proof fn one_end(self, t: Tree, j: nat, k: nat)
        requires
            self.after(t, j).done(),
            self.after(t, k).done(),
        ensures
            self.after(t, j) == self.after(t, k),
        decreases j,
    {
        if j == 0 || t.done() {
            reveal_with_fuel(Expansion::after, 2);
        } else if k == 0 {
        } else {
            self.one_end(self.step(t), (j - 1) as nat, (k - 1) as nat);
        }
    }
}

/// The recipe that was chosen for each material.
fn chosen_table(g: &KnowledgeGraph, overrides: &Choices) -> (r: Vec<Option<RecipeId>>)
    requires
        g.wf(),
        overrides.fits(*g),
    ensures
        r@ == Seq::new(
            g.m_count() as nat,
            |m: int| crate::choices::chosen_in(overrides.entries@, m as u32),
        ),
        forall|i: int|
            0 <= i < g.m_count() ==> (#[trigger] r@[i] matches Some(x) ==> x < g.r_count()),
{
    let n: usize = g.materials.len();
    let mut r: Vec<Option<RecipeId>> = Vec::new();
    let mut m: usize = 0;
    while m < n
        invariant
            m <= n,
            n == g.m_count(),
            g.wf(),
            overrides.fits(*g),
            r@ == Seq::new(
                m as nat,
                |m: int| crate::choices::chosen_in(overrides.entries@, m as u32),
            ),
            forall|i: int| 0 <= i < m ==> (#[trigger] r@[i] matches Some(x) ==> x < g.r_count()),
        decreases n - m,
    {
        let x = overrides.get(m as u32);
        proof {
            overrides.found();
            if let Some(rid) = x {
                let i = choose|i: int|
                    0 <= i < overrides.entries@.len() && overrides.entries@[i] == (m as u32, rid);
                assert(overrides.entries@[i].1 < g.r_count());
            }
        }
        r.push(x);
        m += 1;
        assert(r@ =~= Seq::new(
            m as nat,
            |m: int| crate::choices::chosen_in(overrides.entries@, m as u32),
        ));
    }
    r
}

/// The numbers of `v` below `i` that are more than nothing, with their places.
pub open spec fn positive_to<A: Arithmetic>(ar: A, v: Seq<Scalar>, i: int) -> Seq<(u32, Scalar)>
    decreases i,
{
    if i <= 0 {
        Seq::empty()
    } else {
        let rest = positive_to(ar, v, i - 1);
        if ar.lt_spec(eps(ar), v[i - 1]) {
            rest.push(((i - 1) as u32, v[i - 1]))
        } else {
            rest
        }
    }
}

/// The numbers of `v` that are more than nothing, with their places.
pub open spec fn positive<A: Arithmetic>(ar: A, v: Seq<Scalar>) -> Seq<(u32, Scalar)> {
    positive_to(ar, v, v.len() as int)
}

proof fn positive_is_more<A: Arithmetic>(ar: A, v: Seq<Scalar>, i: int)
    ensures
        forall|k: int|
            0 <= k < positive_to(ar, v, i).len() ==> ar.lt_spec(
                eps(ar),
                (#[trigger] positive_to(ar, v, i)[k]).1,
            ),
    decreases i,
{
    if i > 0 {
        positive_is_more(ar, v, i - 1);
        let rest = positive_to(ar, v, i - 1);
        assert forall|k: int| 0 <= k < positive_to(ar, v, i).len() implies ar.lt_spec(
            eps(ar),
            (#[trigger] positive_to(ar, v, i)[k]).1,
        ) by {
            if k < rest.len() {
                assert(positive_to(ar, v, i)[k] == rest[k]);
            }
        }
    }
}

fn list_positive<A: Arithmetic>(ar: &A, v: &Vec<Scalar>) -> (r: Vec<(u32, Scalar)>)
    requires
        v@.len() <= u32::MAX,
    ensures
        r@ == positive(*ar, v@),
        forall|i: int| 0 <= i < r@.len() ==> (#[trigger] r@[i]).0 < v@.len(),
{
    let eps = ar.ratio(1, 1_000_000_000);
    let mut r: Vec<(u32, Scalar)> = Vec::new();
    let mut i: usize = 0;
    while i < v.len()
        invariant
            i <= v@.len() <= u32::MAX,
            eps == self::eps(*ar),
            r@ == positive_to(*ar, v@, i as int),
            forall|k: int| 0 <= k < r@.len() ==> (#[trigger] r@[k]).0 < i,
        decreases v@.len() - i,
    {
        if ar.lt(eps, v[i]) {
            r.push((i as u32, v[i]));
        }
        i += 1;
    }
    r
}

/// The materials below `i` that have a recipe, with it.
pub open spec fn chosen_to(chosen: Seq<Option<RecipeId>>, i: int) -> Seq<(MaterialId, RecipeId)>
    decreases i,
{
    if i <= 0 {
        Seq::empty()
    } else {
        match chosen[i - 1] {
            Some(r) => chosen_to(chosen, i - 1).push(((i - 1) as u32, r)),
            None => chosen_to(chosen, i - 1),
        }
    }
}

proof fn chosen_listed(chosen: Seq<Option<RecipeId>>, n: int, m: int, r: RecipeId)
    requires
        0 <= m < n <= chosen.len(),
        n <= u32::MAX,
        chosen[m] == Some(r),
    ensures
        chosen_to(chosen, n).contains((m as u32, r)),
    decreases n,
{
    if m < n - 1 {
        chosen_listed(chosen, n - 1, m, r);
        let rest = chosen_to(chosen, n - 1);
        let i = choose|i: int| 0 <= i < rest.len() && rest[i] == (m as u32, r);
        assert(chosen_to(chosen, n)[i] == (m as u32, r));
    } else {
        assert(chosen_to(chosen, n).last() == (m as u32, r));
    }
}

fn list_chosen(g: &KnowledgeGraph, chosen: &Vec<Option<RecipeId>>) -> (r: Choices)
    requires
        g.wf(),
        chosen@.len() == g.m_count(),
        forall|i: int|
            0 <= i < g.m_count() ==> (#[trigger] chosen@[i] matches Some(r) ==> r < g.r_count()),
    ensures
        r.fits(*g),
        r.entries@ == chosen_to(chosen@, chosen@.len() as int),
{
    let mut entries: Vec<(MaterialId, RecipeId)> = Vec::new();
    let mut i: usize = 0;
    while i < chosen.len()
        invariant
            i <= chosen@.len(),
            g.wf(),
            chosen@.len() == g.m_count(),
            forall|i: int|
                0 <= i < g.m_count() ==> (#[trigger] chosen@[i] matches Some(r) ==> r
                    < g.r_count()),
            entries@ == chosen_to(chosen@, i as int),
            forall|k: int|
                0 <= k < entries@.len() ==> (#[trigger] entries@[k]).0 < i && entries@[k].1
                    < g.r_count(),
            crate::choices::by_material(entries@),
        decreases chosen@.len() - i,
    {
        if let Some(r) = chosen[i] {
            assert(chosen@[i as int] == Some(r));
            entries.push((i as u32, r));
        }
        i += 1;
    }
    Choices { entries }
}

/// The rates of the first `i` entries in comparable units, added up.
pub open spec fn cost_to<A: Arithmetic>(
    ar: A,
    g: KnowledgeGraph,
    raw: Seq<(MaterialId, Scalar)>,
    i: int,
) -> Scalar
    decreases i,
{
    if i <= 0 {
        ar.ratio_spec(0, 1)
    } else {
        ar.plus_spec(
            cost_to(ar, g, raw, i - 1),
            norm_rate_spec(ar, g.materials@[raw[i - 1].0 as int].key.kind, raw[i - 1].1),
        )
    }
}

/// The numbers of the first `i` entries, added up.
pub open spec fn sum_to<A: Arithmetic>(ar: A, v: Seq<(u32, Scalar)>, i: int) -> Scalar
    decreases i,
{
    if i <= 0 {
        ar.ratio_spec(0, 1)
    } else {
        ar.plus_spec(sum_to(ar, v, i - 1), v[i - 1].1)
    }
}

/// A name in its place in an alphabetical list without repetition.
pub open spec fn name_entered(list: Seq<Seq<char>>, name: Seq<char>) -> Seq<Seq<char>>
    decreases list.len(),
{
    if list.len() == 0 {
        seq![name]
    } else if list.last() == name {
        list
    } else if crate::text::text_before(list.last(), name) {
        list.push(name)
    } else {
        name_entered(list.drop_last(), name).push(list.last())
    }
}

/// The ids of the first `i` materials, in alphabetical order without repetition.
pub open spec fn names_to(g: KnowledgeGraph, ids: Seq<MaterialId>, i: int) -> Seq<Seq<char>>
    decreases i,
{
    if i <= 0 {
        Seq::empty()
    } else {
        name_entered(names_to(g, ids, i - 1), g.id_text(ids[i - 1]))
    }
}

fn enter_name(list: &mut Vec<String>, name: &str)
    ensures
        crate::intern::texts(final(list)@) == name_entered(crate::intern::texts(old(list)@), name@),
{
    let ghost start = crate::intern::texts(list@);
    let mut i: usize = list.len();
    assert(start.take(i as int) =~= start);
    assert(name_entered(start, name@) =~= name_entered(start.take(i as int), name@) + start.skip(
        i as int,
    ));
    while i > 0 && !same(list[i - 1].as_str(), name) && !is_text_before(list[i - 1].as_str(), name)
        invariant
            i <= list@.len(),
            start == crate::intern::texts(list@),
            name_entered(start, name@) == name_entered(start.take(i as int), name@) + start.skip(
                i as int,
            ),
        decreases i,
    {
        assert(start[i - 1] == list@[i - 1]@);
        assert(start.take(i as int).drop_last() =~= start.take(i - 1));
        assert(name_entered(start.take(i - 1), name@).push(start[i - 1]) + start.skip(i as int)
            =~= name_entered(start.take(i - 1), name@) + start.skip(i - 1));
        i -= 1;
    }
    if i > 0 {
        assert(start[i - 1] == list@[i - 1]@);
        assert(start.take(i as int).last() == start[i - 1]);
    }
    if i > 0 && same(list[i - 1].as_str(), name) {
        assert(start.take(i as int) + start.skip(i as int) =~= start);
    } else {
        list.insert(i, name.to_owned());
        assert(crate::intern::texts(list@) =~= start.take(i as int).push(name@) + start.skip(
            i as int,
        ));
        if i == 0 {
            assert(start.take(0).push(name@) =~= seq![name@]);
        }
    }
}

/// The first `i` names, with commas.
pub open spec fn comma_to(names: Seq<Seq<char>>, i: int) -> Seq<char>
    decreases i,
{
    if i <= 0 {
        Seq::empty()
    } else if i == 1 {
        names[0]
    } else {
        comma_to(names, i - 1) + ", "@ + names[i - 1]
    }
}

/// What is said of materials that nothing can make.
pub open spec fn no_route_text(names: Seq<Seq<char>>) -> Seq<char> {
    let shown = if names.len() < 5 { names.len() as int } else { 5 };
    crate::text::decimal(names.len()) + " 种材料无可达生产路线，按外部输入处理（前 5："@ + comma_to(
        names,
        shown,
    ) + (if names.len() > 5 { " …"@ } else { Seq::empty() }) + "）"@
}

fn no_route_message(g: &KnowledgeGraph, ids: &Vec<MaterialId>) -> (r: String)
    requires
        g.keyed(),
        forall|i: int| 0 <= i < ids@.len() ==> #[trigger] ids@[i] < g.m_count(),
    ensures
        r@ == no_route_text(names_to(*g, ids@, ids@.len() as int)),
{
    let mut names: Vec<String> = Vec::new();
    assert(crate::intern::texts(names@) =~= names_to(*g, ids@, 0));
    let mut i: usize = 0;
    while i < ids.len()
        invariant
            i <= ids@.len(),
            g.keyed(),
            forall|i: int| 0 <= i < ids@.len() ==> #[trigger] ids@[i] < g.m_count(),
            crate::intern::texts(names@) == names_to(*g, ids@, i as int),
        decreases ids@.len() - i,
    {
        enter_name(&mut names, g.material_id_str(ids[i]));
        i += 1;
    }
    let ghost list = crate::intern::texts(names@);
    let mut shown = String::new();
    let mut i: usize = 0;
    while i < names.len() && i < 5
        invariant
            i <= names@.len(),
            i <= 5,
            list == crate::intern::texts(names@),
            shown@ == comma_to(list, i as int),
        decreases 5 - i,
    {
        assert(list[i as int] == names@[i as int]@);
        if i == 0 {
            shown = names[0].clone();
        } else {
            shown = joined(joined(shown.as_str(), ", ").as_str(), names[i].as_str());
        }
        i += 1;
    }
    let head = joined(
        joined(
            decimal_string(names.len() as u64).as_str(),
            " 种材料无可达生产路线，按外部输入处理（前 5：",
        ).as_str(),
        shown.as_str(),
    );
    let body = if names.len() > 5 {
        joined(head.as_str(), " …")
    } else {
        assert(head@ + Seq::<char>::empty() =~= head@);
        head
    };
    joined(body.as_str(), "）")
}

/// The result of an expansion.
pub struct Expanded {
    pub ops: Seq<(RecipeId, Scalar)>,
    pub raw: Seq<(MaterialId, Scalar)>,
    pub byproducts: Seq<(MaterialId, Scalar)>,
    pub choices: Seq<(MaterialId, RecipeId)>,
    pub notes: Seq<Seq<char>>,
    pub estimated_cost: Scalar,
    pub ops_total: Scalar,
}

impl<'a, A: Arithmetic> Expansion<'a, A> {
    /// The notes of a finished expansion.
    pub open spec fn final_notes(self, t: Tree) -> Seq<Seq<char>> {
        let names = names_to(*self.g, t.no_route, t.no_route.len() as int);
        let n1 = if t.no_route.len() > 0 { noted(t.notes, no_route_text(names)) } else { t.notes };
        let n2 = if t.limit_hit {
            noted(n1, "部分材料循环展开次数超限，已按外部输入处理"@)
        } else {
            n1
        };
        let n3 = if !self.an.cost.converged {
            noted(n2, "成本迭代未完全收敛（存在复杂循环），估算值可能偏差"@)
        } else {
            n2
        };
        if t.truncated {
            noted(n3, "结果不完整：存在未满足需求或循环放大"@)
        } else {
            n3
        }
    }

    /// The result of a finished expansion.
    pub open spec fn finish(self, t: Tree) -> Expanded {
        let ops = positive(*self.ar, t.ops);
        let raw = positive(*self.ar, t.raw);
        Expanded {
            ops,
            raw,
            byproducts: positive(*self.ar, t.byproduct),
            choices: chosen_to(t.chosen, t.chosen.len() as int),
            notes: self.final_notes(t),
            estimated_cost: cost_to(*self.ar, *self.g, raw, raw.len() as int),
            ops_total: sum_to(*self.ar, ops, ops.len() as int),
        }
    }

    /// `e` is the result of the expansion with the given choices.
    pub open spec fn expands(self, overrides: Seq<(MaterialId, RecipeId)>, e: Expanded) -> bool {
        exists|k: nat| #[trigger]
            self.after(self.start(overrides), k).done() && e == self.finish(
                self.after(self.start(overrides), k),
            )
    }

    /// An expansion has one result.
    pub proof fn expands_once(self, overrides: Seq<(MaterialId, RecipeId)>, a: Expanded, b: Expanded)
        requires
            self.expands(overrides, a),
            self.expands(overrides, b),
        ensures
            a == b,
    {
        let t = self.start(overrides);
        let j = choose|j: nat| #[trigger]
            self.after(t, j).done() && a == self.finish(self.after(t, j));
        let k = choose|k: nat| #[trigger]
            self.after(t, k).done() && b == self.finish(self.after(t, k));
        self.one_end(t, j, k);
    }
}

/// The result of an expansion, before it is made a plan.
pub struct TreeResult {
    pub ops: Vec<(RecipeId, Scalar)>,
    pub raw: Vec<(MaterialId, Scalar)>,
    pub byproducts: Vec<(MaterialId, Scalar)>,
    /// The recipe that was used for each material.
    pub choices: Choices,
    pub notes: Vec<String>,
    /// Cost in raw items.
    pub estimated_cost: Scalar,
    /// Operations per minute.
    pub ops_total: Scalar,
}

impl View for TreeResult {
    type V = Expanded;

    open spec fn view(&self) -> Expanded {
        Expanded {
            ops: self.ops@,
            raw: self.raw@,
            byproducts: self.byproducts@,
            choices: self.choices.entries@,
            notes: crate::intern::texts(self.notes@),
            estimated_cost: self.estimated_cost,
            ops_total: self.ops_total,
        }
    }
}

impl TreeResult {
    /// The materials and recipes are those of the graph.
    pub open spec fn fits(self, g: KnowledgeGraph) -> bool {
        &&& self.choices.fits(g)
        &&& forall|i: int| 0 <= i < self.ops@.len() ==> (#[trigger] self.ops@[i]).0 < g.r_count()
        &&& forall|i: int| 0 <= i < self.raw@.len() ==> (#[trigger] self.raw@[i]).0 < g.m_count()
        &&& forall|i: int|
            0 <= i < self.byproducts@.len() ==> (#[trigger] self.byproducts@[i]).0 < g.m_count()
    }
}

impl<'a, A: Arithmetic> Expansion<'a, A> {
    fn run_notes(&self, w: &mut Work)
        requires
            self.ok(),
            old(w).sized(*self.g),
        ensures
            final(w).sized(*self.g),
            final(w)@ == (Tree { notes: self.final_notes(old(w)@), ..old(w)@ }),
    {
        if w.no_route.len() > 0 {
            let msg = no_route_message(self.g, &w.no_route);
            note(&mut w.notes, msg);
        }
        if w.limit_hit {
            note(
                &mut w.notes,
                "部分材料循环展开次数超限，已按外部输入处理".to_owned(),
            );
        }
        if !self.an.cost.converged {
            note(
                &mut w.notes,
                "成本迭代未完全收敛（存在复杂循环），估算值可能偏差".to_owned(),
            );
        }
        if w.truncated {
            note(&mut w.notes, "结果不完整：存在未满足需求或循环放大".to_owned());
        }
    }

    /// The expansion with given choices.
    pub fn expand(&self, overrides: &Choices) -> (r: TreeResult)
        requires
            self.ok(),
            overrides.fits(*self.g),
        ensures
            r.fits(*self.g),
            self.expands(overrides.entries@, r@),
    {
        let ar = self.ar;
        let g = self.g;
        let mut w = self.run(overrides);
        let ghost t = w@;
        self.run_notes(&mut w);
        let ops = list_positive(ar, &w.ops);
        let raw = list_positive(ar, &w.raw);
        let byproducts = list_positive(ar, &w.byproduct);
        let choices = list_chosen(g, &w.chosen);
        let mut estimated_cost = ar.ratio(0, 1);
        let mut i: usize = 0;
        while i < raw.len()
            invariant
                i <= raw@.len(),
                forall|k: int| 0 <= k < raw@.len() ==> (#[trigger] raw@[k]).0 < g.m_count(),
                estimated_cost == cost_to(*ar, *g, raw@, i as int),
            decreases raw@.len() - i,
        {
            let (m, q): (u32, Scalar) = raw[i];
            estimated_cost = ar.plus(
                estimated_cost,
                norm_rate(ar, g.material(m).key.kind, q),
            );
            i += 1;
        }
        let mut ops_total = ar.ratio(0, 1);
        let mut i: usize = 0;
        while i < ops.len()
            invariant
                i <= ops@.len(),
                ops_total == sum_to(*ar, ops@, i as int),
            decreases ops@.len() - i,
        {
            ops_total = ar.plus(ops_total, ops[i].1);
            i += 1;
        }
        let r = TreeResult {
            ops,
            raw,
            byproducts,
            choices,
            notes: w.notes,
            estimated_cost,
            ops_total,
        };
        proof {
            let k = choose|k: nat| t == #[trigger] self.after(self.start(overrides.entries@), k);
            assert(self.after(self.start(overrides.entries@), k).done());
            assert(r@ == self.finish(t));
        }
        r
    }
}

/// Expands the demand of a request; `overrides` gives some materials their
/// recipe.
pub fn expand_tree<A: Arithmetic>(
    ar: &A,
    g: &KnowledgeGraph,
    an: &Analysis,
    req: &PlanRequest,
    overrides: &Choices,
) -> (r: TreeResult)
    requires
        an.fits(*ar, *g),
        req.target < g.m_count(),
        overrides.fits(*g),
    ensures
        r.fits(*g),
        (Expansion { ar, g, an, req }).expands(overrides.entries@, r@),
{
    let e = Expansion { ar, g, an, req };
    e.expand(overrides)
}

/// The recipes that the expansion of a request uses when nothing is chosen.
pub fn greedy_choices<A: Arithmetic>(
    ar: &A,
    g: &KnowledgeGraph,
    an: &Analysis,
    req: &PlanRequest,
) -> (r: Choices)
    requires
        an.fits(*ar, *g),
        req.target < g.m_count(),
    ensures
        r.fits(*g),
        exists|e: Expanded| #[trigger]
            (Expansion { ar, g, an, req }).expands(Seq::empty(), e) && e.choices == r.entries@,
{
    let none = Choices::new();
    assert(none.entries@ =~= Seq::<(MaterialId, RecipeId)>::empty());
    let res = expand_tree(ar, g, an, req, &none);
    assert((Expansion { ar, g, an, req }).expands(Seq::empty(), res@));
    res.choices
}

impl<'a, A: Arithmetic> Expansion<'a, A> {
    /// The result of the expansion with the given choices.
    pub open spec fn expanded(self, overrides: Seq<(MaterialId, RecipeId)>) -> Expanded {
        choose|e: Expanded| self.expands(overrides, e)
    }

    /// The result is the one that is found.
    pub proof fn expanded_is(self, overrides: Seq<(MaterialId, RecipeId)>, e: Expanded)
        requires
            self.expands(overrides, e),
        ensures
            self.expanded(overrides) == e,
    {
        self.expands_once(overrides, self.expanded(overrides), e);
    }

    /// The demands that wait are demands for materials of the graph, and the
    /// recipes that were chosen are recipes of the graph.
    pub open spec fn sound(self, t: Tree) -> bool {
        &&& t.chosen.len() == self.g.m_count()
        &&& forall|i: int|
            0 <= i < self.g.m_count() ==> (#[trigger] t.chosen[i] matches Some(r) ==> r
                < self.g.r_count())
        &&& forall|i: int| 0 <= i < t.queue.len() ==> #[trigger] t.queue[i] < self.g.m_count()
    }

    /// A choice that was made stays: whatever recipe a material has before some
    /// steps, it has after them.
    pub proof fn choices_stay(self, t: Tree, k: nat, m: MaterialId)
        requires
            self.ok(),
            self.sound(t),
            m < self.g.m_count(),
            t.chosen[m as int] is Some,
        ensures
            self.sound(self.after(t, k)),
            self.after(t, k).chosen[m as int] == t.chosen[m as int],
        decreases k,
    {
        if k > 0 && !t.done() {
            self.step_keeps_choice(t, m);
            self.choices_stay(self.step(t), (k - 1) as nat, m);
        }
    }

    /// A recipe that is chosen before an expansion is used throughout: it is the
    /// recipe of its material in the result.
    pub proof fn overrides_hold(self, overrides: Choices, m: MaterialId, r: RecipeId, e: Expanded)
        requires
            self.ok(),
            overrides.fits(*self.g),
            overrides.entries@.contains((m, r)),
            self.expands(overrides.entries@, e),
        ensures
            e.choices.contains((m, r)),
    {
        overrides.found();
        let at = choose|i: int|
            0 <= i < overrides.entries@.len() && overrides.entries@[i] == (m, r);
        assert(overrides.entries@[at].0 < self.g.m_count());
        let t = self.start(overrides.entries@);
        assert forall|i: int| 0 <= i < self.g.m_count() implies (#[trigger] t.chosen[i] matches Some(
            x,
        ) ==> x < self.g.r_count()) by {
            if let Some(x) = t.chosen[i] {
                let j = choose|j: int|
                    0 <= j < overrides.entries@.len() && overrides.entries@[j] == (i as u32, x);
                assert(overrides.entries@[j].1 < self.g.r_count());
            }
        }
        assert(t.chosen[m as int] == Some(r)) by {
            assert(m as int as u32 == m);
        }
        let k = choose|k: nat| #[trigger]
            self.after(t, k).done() && e == self.finish(self.after(t, k));
        self.choices_stay(t, k, m);
        chosen_listed(self.after(t, k).chosen, self.g.m_count(), m as int, r);
    }

    proof fn pick_below(self, m: MaterialId, i: int)
        requires
            self.ok(),
            m < self.g.m_count(),
            0 <= i <= self.g.producers@[m as int]@.len(),
        ensures
            self.cheapest_to(m, i) matches Some((_, rid)) ==> rid < self.g.r_count(),
            self.pick(m) is Some && i == self.g.producers@[m as int]@.len() ==> self.pick(m)->0
                < self.g.r_count(),
        decreases i,
    {
        if i > 0 {
            self.pick_below(m, i - 1);
            let rid = self.g.producers@[m as int]@[i - 1];
            let p = |r: int| self.g.produces(r, m as int as u32);
            assert(crate::graph::lists(self.g.producers@[m as int]@, self.g.r_count(), p));
        }
        if let Some(best) = self.an.cost.best_recipe@[m as int] {
            assert(crate::algo::cost::makes(*self.g, best, m as int as u32));
        }
    }

    proof fn step_keeps_choice(self, t: Tree, m: MaterialId)
        requires
            self.ok(),
            self.sound(t),
            t.queue.len() > 0,
            m < self.g.m_count(),
            t.chosen[m as int] is Some,
        ensures
            self.sound(self.step(t)),
            self.step(t).chosen[m as int] == t.chosen[m as int],
    {
        let x = t.queue[0];
        let qty = t.demand[x as int];
        let t1 = Tree {
            queue: t.queue.drop_first(),
            queued: t.queued.update(x as int, false),
            demand: t.demand.update(x as int, self.ar.ratio_spec(0, 1)),
            ..t
        };
        assert(self.sound(t1));
        let i = x as int;
        let t2 = Tree {
            visits: t1.visits.update(
                i,
                if t1.visits[i] < 17 {
                    (t1.visits[i] + 1) as u16
                } else {
                    t1.visits[i]
                },
            ),
            ..t1
        };
        match t2.chosen[i] {
            Some(rid) => {
                self.make_by_keeps(t2, x, rid, qty);
            },
            None => {
                self.pick_below(x, self.g.producers@[x as int]@.len() as int);
                if let Some(rid) = self.pick(x) {
                    self.make_by_keeps(
                        Tree { chosen: t2.chosen.update(i, Some(rid)), ..t2 },
                        x,
                        rid,
                        qty,
                    );
                }
            },
        }
    }

    proof fn make_by_keeps(self, t: Tree, x: MaterialId, rid: RecipeId, qty: Scalar)
        requires
            self.ok(),
            self.sound(t),
        ensures
            self.make_by(t, x, rid, qty).chosen == t.chosen,
            rid < self.g.r_count() ==> self.sound(self.make_by(t, x, rid, qty)),
    {
        if let Some(out_q) = crate::util::qty_in(self.g.recipes@[rid as int].outputs@, x) {
            let r = self.g.recipes@[rid as int];
            let ops_add = self.ops_for(x, rid, out_q, qty);
            let t1 = Tree {
                expansions: t.expansions + 1,
                ops: t.ops.update(rid as int, self.ar.plus_spec(t.ops[rid as int], ops_add)),
                ..t
            };
            self.give_keeps(t1, x, rid, ops_add, r.outputs@.len() as int);
            let t2 = self.give_to(t1, x, rid, ops_add, r.outputs@.len() as int);
            self.want_keeps(t2, r.inputs@, ops_add, r.inputs@.len() as int);
        }
    }

    proof fn give_keeps(self, t: Tree, m: MaterialId, rid: RecipeId, ops_add: Scalar, s: int)
        ensures
            self.give_to(t, m, rid, ops_add, s).chosen == t.chosen,
            self.give_to(t, m, rid, ops_add, s).queue == t.queue,
        decreases s,
    {
        if s > 0 {
            self.give_keeps(t, m, rid, ops_add, s - 1);
        }
    }

    proof fn want_keeps(self, t: Tree, slots: Seq<Slot>, ops_add: Scalar, s: int)
        requires
            self.sound(t),
            s <= slots.len(),
        ensures
            self.want_to(t, slots, ops_add, s).chosen == t.chosen,
            crate::graph::slots_ok(slots, self.g.m_count()) ==> self.sound(
                self.want_to(t, slots, ops_add, s),
            ),
        decreases s,
    {
        if s > 0 {
            self.want_keeps(t, slots, ops_add, s - 1);
            if crate::graph::slots_ok(slots, self.g.m_count()) {
                let slot = slots[s - 1];
                assert(crate::graph::slot_ok(slot, self.g.m_count()));
                crate::util::cheapest_is_candidate(
                    *self.ar,
                    *self.g,
                    self.an.cost.unit_cost@,
                    Some(self.an.cost.cyclic@),
                    slot.alts@,
                    slot.alts@.len() as int,
                );
            }
        }
    }
}

impl<'a, A: Arithmetic> Expansion<'a, A> {
    /// The recipe may be picked for the material: it makes it, can be planned
    /// with, and its tier is allowed.
    pub open spec fn fit_for(self, r: RecipeId, m: MaterialId) -> bool {
        &&& crate::algo::cost::makes(*self.g, r, m)
        &&& crate::util::tier_allowed_spec(*self.g, r, self.req.max_tier)
    }

    /// Nothing is not more than nothing.
    pub open spec fn zero_is_nothing(self) -> bool {
        !self.ar.lt_spec(eps(*self.ar), self.ar.ratio_spec(0, 1))
    }

    /// What a material is taken from outside for.
    pub open spec fn from_outside(self, t: Tree, i: int) -> bool {
        ||| self.g.source_spec(i as u32)
        ||| t.limit_hit
        ||| match t.chosen[i] {
            Some(r) => crate::util::qty_in(self.g.recipes@[r as int].outputs@, i as u32) is None,
            None => self.pick(i as u32) is None,
        }
    }

    /// Recipes that run were chosen, recipes were chosen for a reason, and what
    /// comes from outside has to.
    spec fn accounted(self, overrides: Seq<(MaterialId, RecipeId)>, t: Tree) -> bool {
        let zero = self.ar.ratio_spec(0, 1);
        &&& self.sound(t)
        &&& t.raw.len() == self.g.m_count()
        &&& t.ops.len() == self.g.r_count()
        &&& forall|r: int|
            0 <= r < t.ops.len() ==> #[trigger] t.ops[r] == zero || t.chosen.contains(
                Some(r as u32),
            )
        &&& forall|i: int|
            0 <= i < t.chosen.len() ==> (#[trigger] t.chosen[i] matches Some(r)
                ==> crate::choices::chosen_in(overrides, i as u32) == Some(r) || self.fit_for(
                r,
                i as u32,
            ))
        &&& self.zero_is_nothing() ==> forall|i: int|
            0 <= i < t.raw.len() ==> #[trigger] t.raw[i] == zero || self.from_outside(t, i)
    }

    pub(crate) proof fn pick_fits(self, m: MaterialId, i: int)
        requires
            self.ok(),
            m < self.g.m_count(),
            0 <= i <= self.g.producers@[m as int]@.len(),
        ensures
            self.cheapest_to(m, i) matches Some((_, rid)) ==> self.fit_for(rid, m),
            i == self.g.producers@[m as int]@.len() ==> (self.pick(m) matches Some(rid)
                ==> self.fit_for(rid, m)),
        decreases i,
    {
        if i > 0 {
            self.pick_fits(m, i - 1);
            let rid = self.g.producers@[m as int]@[i - 1];
            let p = |r: int| self.g.produces(r, m as int as u32);
            assert(crate::graph::lists(self.g.producers@[m as int]@, self.g.r_count(), p));
            assert(p(rid as int));
        }
        if let Some(best) = self.an.cost.best_recipe@[m as int] {
            assert(crate::algo::cost::makes(*self.g, best, m as int as u32));
        }
    }

    proof fn give_accounts(
        self,
        overrides: Seq<(MaterialId, RecipeId)>,
        t: Tree,
        m: MaterialId,
        rid: RecipeId,
        ops_add: Scalar,
        s: int,
    )
        requires
            self.ok(),
            self.accounted(overrides, t),
            rid < self.g.r_count(),
            s <= self.g.recipes@[rid as int].outputs@.len(),
        ensures
            self.accounted(overrides, self.give_to(t, m, rid, ops_add, s)),
            self.give_to(t, m, rid, ops_add, s).chosen == t.chosen,
        decreases s,
    {
        if s > 0 {
            self.give_accounts(overrides, t, m, rid, ops_add, s - 1);
            let u = self.give_to(t, m, rid, ops_add, s - 1);
            let slot = self.g.recipes@[rid as int].outputs@[s - 1];
            assert(crate::graph::slot_ok(slot, self.g.m_count()));
            if let Some((om, oq)) = slot.primary_spec() {
                let v = self.give_to(t, m, rid, ops_add, s);
                assert(v.chosen == u.chosen && v.ops == u.ops && v.queue == u.queue
                    && v.limit_hit == u.limit_hit);
                assert forall|i: int| 0 <= i < v.raw.len() && self.zero_is_nothing() implies #[trigger] v.raw[i]
                    == self.ar.ratio_spec(0, 1) || self.from_outside(v, i) by {
                    assert(u.raw[i] == self.ar.ratio_spec(0, 1) || self.from_outside(u, i));
                    assert(self.from_outside(u, i) == self.from_outside(v, i));
                }
            }
        }
    }

    proof fn want_accounts(
        self,
        overrides: Seq<(MaterialId, RecipeId)>,
        t: Tree,
        slots: Seq<Slot>,
        ops_add: Scalar,
        s: int,
    )
        requires
            self.ok(),
            self.accounted(overrides, t),
            crate::graph::slots_ok(slots, self.g.m_count()),
            s <= slots.len(),
        ensures
            self.accounted(overrides, self.want_to(t, slots, ops_add, s)),
        decreases s,
    {
        if s > 0 {
            self.want_accounts(overrides, t, slots, ops_add, s - 1);
            let u = self.want_to(t, slots, ops_add, s - 1);
            let v = self.want_to(t, slots, ops_add, s);
            self.want_keeps(t, slots, ops_add, s);
            assert(v.chosen == u.chosen && v.ops == u.ops && v.raw == u.raw && v.limit_hit
                == u.limit_hit);
            assert forall|i: int| 0 <= i < v.raw.len() && self.zero_is_nothing() implies #[trigger] v.raw[i]
                == self.ar.ratio_spec(0, 1) || self.from_outside(v, i) by {
                assert(u.raw[i] == self.ar.ratio_spec(0, 1) || self.from_outside(u, i));
                assert(self.from_outside(u, i) == self.from_outside(v, i));
            }
        }
    }

    proof fn make_accounts(
        self,
        overrides: Seq<(MaterialId, RecipeId)>,
        t: Tree,
        m: MaterialId,
        rid: RecipeId,
        qty: Scalar,
    )
        requires
            self.ok(),
            self.accounted(overrides, t),
            m < self.g.m_count(),
            rid < self.g.r_count(),
            t.chosen[m as int] == Some(rid),
        ensures
            self.accounted(overrides, self.make_by(t, m, rid, qty)),
    {
        let zero = self.ar.ratio_spec(0, 1);
        match crate::util::qty_in(self.g.recipes@[rid as int].outputs@, m) {
            None => {
                let v = self.make_by(t, m, rid, qty);
                assert(v.chosen == t.chosen && v.ops == t.ops && v.limit_hit == t.limit_hit);
                assert forall|i: int| 0 <= i < v.raw.len() && self.zero_is_nothing() implies #[trigger] v.raw[i] == zero
                    || self.from_outside(v, i) by {
                    if i != m {
                        assert(t.raw[i] == zero || self.from_outside(t, i));
                        assert(self.from_outside(t, i) == self.from_outside(v, i));
                    } else {
                        assert(i as u32 == m);
                    }
                }
            },
            Some(out_q) => {
                if t.expansions >= self.req.max_ops {
                    let v = self.make_by(t, m, rid, qty);
                    assert(v.chosen == t.chosen && v.ops == t.ops && v.raw == t.raw && v.limit_hit
                        == t.limit_hit);
                    assert forall|i: int| 0 <= i < v.raw.len() && self.zero_is_nothing() implies #[trigger] v.raw[i] == zero
                        || self.from_outside(v, i) by {
                        assert(t.raw[i] == zero || self.from_outside(t, i));
                        assert(self.from_outside(t, i) == self.from_outside(v, i));
                    }
                } else {
                    let r = self.g.recipes@[rid as int];
                    let ops_add = self.ops_for(m, rid, out_q, qty);
                    let t1 = Tree {
                        expansions: t.expansions + 1,
                        ops: t.ops.update(rid as int, self.ar.plus_spec(t.ops[rid as int], ops_add)),
                        ..t
                    };
                    assert(t1.chosen.contains(Some(rid)));
                    assert forall|i: int| 0 <= i < t1.raw.len() && self.zero_is_nothing() implies #[trigger] t1.raw[i] == zero
                        || self.from_outside(t1, i) by {
                        assert(t.raw[i] == zero || self.from_outside(t, i));
                        assert(self.from_outside(t, i) == self.from_outside(t1, i));
                    }
                    assert forall|k: int| 0 <= k < t1.ops.len() implies #[trigger] t1.ops[k] == zero
                        || t1.chosen.contains(Some(k as u32)) by {
                        assert(t.ops[k] == zero || t.chosen.contains(Some(k as u32)));
                        if k == rid {
                            assert(k as u32 == rid);
                        }
                    }
                    assert(self.accounted(overrides, t1));
                    self.give_accounts(overrides, t1, m, rid, ops_add, r.outputs@.len() as int);
                    let t2 = self.give_to(t1, m, rid, ops_add, r.outputs@.len() as int);
                    self.want_accounts(overrides, t2, r.inputs@, ops_add, r.inputs@.len() as int);
                }
            },
        }
    }

    proof fn step_accounts(self, overrides: Seq<(MaterialId, RecipeId)>, t: Tree)
        requires
            self.ok(),
            self.accounted(overrides, t),
            t.queue.len() > 0,
        ensures
            self.accounted(overrides, self.step(t)),
    {
        let zero = self.ar.ratio_spec(0, 1);
        let x = t.queue[0];
        let i = x as int;
        let qty = t.demand[i];
        let t2 = Tree {
            queue: t.queue.drop_first(),
            queued: t.queued.update(i, false),
            demand: t.demand.update(i, zero),
            visits: t.visits.update(
                i,
                if t.visits[i] < 17 {
                    (t.visits[i] + 1) as u16
                } else {
                    t.visits[i]
                },
            ),
            ..t
        };
        assert(i as u32 == x);
        let v = self.step(t);
        assert forall|j: int| 0 <= j < v.queue.len() && v.queue == t.queue.drop_first() implies #[trigger] v.queue[j]
            < self.g.m_count() by {
            assert(v.queue[j] == t.queue[j + 1]);
        }
        assert forall|j: int| 0 <= j < t2.queue.len() implies #[trigger] t2.queue[j]
            < self.g.m_count() by {
            assert(t2.queue[j] == t.queue[j + 1]);
        }
        assert forall|j: int| 0 <= j < t2.raw.len() && self.zero_is_nothing() implies #[trigger] t2.raw[j] == zero
            || self.from_outside(t2, j) by {
            assert(t.raw[j] == zero || self.from_outside(t, j));
            assert(self.from_outside(t, j) == self.from_outside(t2, j));
        }
        assert(self.accounted(overrides, t2));
        let taken_up = !self.ar.le_spec(qty, eps(*self.ar)) && !(!self.ar.finite_spec(qty)
            || self.ar.lt_spec(self.ar.ratio_spec(1_000_000_000_000_000, 1), qty));
        if taken_up && t2.visits[i] <= 16 && !self.g.source_spec(x) && t2.chosen[i] is Some {
            self.make_accounts(overrides, t2, x, t2.chosen[i]->0, qty);
        } else if taken_up && t2.visits[i] <= 16 && !self.g.source_spec(x) && self.pick(x) is Some {
            let rid = self.pick(x)->0;
            self.pick_fits(x, self.g.producers@[i]@.len() as int);
            let t3 = Tree { chosen: t2.chosen.update(i, Some(rid)), ..t2 };
            assert forall|k: int| 0 <= k < t3.ops.len() implies #[trigger] t3.ops[k] == zero
                || t3.chosen.contains(Some(k as u32)) by {
                if t2.chosen.contains(Some(k as u32)) {
                    let at = choose|a: int|
                        0 <= a < t2.chosen.len() && t2.chosen[a] == Some(k as u32);
                    assert(t3.chosen[at] == Some(k as u32));
                }
                assert(t2.ops[k] == zero || t2.chosen.contains(Some(k as u32)));
            }
            assert forall|j: int| 0 <= j < t3.raw.len() && self.zero_is_nothing() implies #[trigger] t3.raw[j] == zero
                || self.from_outside(t3, j) by {
                assert(t2.raw[j] == zero || self.from_outside(t2, j));
                if j != i {
                    assert(self.from_outside(t2, j) == self.from_outside(t3, j));
                }
            }
            assert(self.accounted(overrides, t3));
            self.make_accounts(overrides, t3, x, rid, qty);
        } else {
            assert(v.chosen == t.chosen && v.ops == t.ops);
            assert forall|j: int| 0 <= j < v.raw.len() && self.zero_is_nothing() implies #[trigger] v.raw[j] == zero
                || self.from_outside(v, j) by {
                assert(t.raw[j] == zero || self.from_outside(t, j));
                if self.from_outside(t, j) {
                    assert(self.from_outside(v, j));
                }
            }
        }
    }

    proof fn steps_account(self, overrides: Seq<(MaterialId, RecipeId)>, t: Tree, k: nat)
        requires
            self.ok(),
            self.accounted(overrides, t),
        ensures
            self.accounted(overrides, self.after(t, k)),
        decreases k,
    {
        if k > 0 && !t.done() {
            self.step_accounts(overrides, t);
            self.steps_account(overrides, self.step(t), (k - 1) as nat);
        }
    }

    proof fn start_accounts(self, overrides: Choices)
        requires
            self.ok(),
            overrides.fits(*self.g),
        ensures
            self.accounted(overrides.entries@, self.start(overrides.entries@)),
    {
        overrides.found();
        let t = self.start(overrides.entries@);
        assert forall|i: int| 0 <= i < self.g.m_count() implies (#[trigger] t.chosen[i] matches Some(
            x,
        ) ==> x < self.g.r_count()) by {
            if let Some(x) = t.chosen[i] {
                let j = choose|j: int|
                    0 <= j < overrides.entries@.len() && overrides.entries@[j] == (i as u32, x);
                assert(overrides.entries@[j].1 < self.g.r_count());
            }
        }
        assert(self.accounted(overrides.entries@, t));
    }

    /// Every step waits for materials of the graph, and has chosen recipes of the
    /// graph.
    pub proof fn stays_sound(self, overrides: Choices, k: nat)
        requires
            self.ok(),
            overrides.fits(*self.g),
        ensures
            self.sound(self.after(self.start(overrides.entries@), k)),
    {
        self.start_accounts(overrides);
        self.steps_account(overrides.entries@, self.start(overrides.entries@), k);
    }

    proof fn end_accounts(self, overrides: Choices, e: Expanded) -> (t: Tree)
        requires
            self.ok(),
            overrides.fits(*self.g),
            self.expands(overrides.entries@, e),
        ensures
            self.accounted(overrides.entries@, t),
            e == self.finish(t),
    {
        self.start_accounts(overrides);
        let t = self.start(overrides.entries@);
        let k = choose|k: nat| #[trigger]
            self.after(t, k).done() && e == self.finish(self.after(t, k));
        self.steps_account(overrides.entries@, t, k);
        self.after(t, k)
    }

    /// Every recipe that an expansion runs was chosen for a material; and every
    /// recipe that was chosen was either asked for, or makes its material, can be
    /// planned with, and is of an allowed tier. So with a highest tier, and
    /// nothing asked for, no recipe above it is used.
    pub proof fn recipes_are_allowed(self, overrides: Choices, e: Expanded)
        requires
            self.ok(),
            overrides.fits(*self.g),
            self.expands(overrides.entries@, e),
        ensures
            self.zero_is_nothing() ==> forall|i: int|
                0 <= i < e.ops.len() ==> chosen_for_some(e.choices, (#[trigger] e.ops[i]).0),
            forall|i: int|
                0 <= i < e.choices.len() ==> overrides.entries@.contains(#[trigger] e.choices[i])
                    || self.fit_for(e.choices[i].1, e.choices[i].0),
    {
        overrides.found();
        let t = self.end_accounts(overrides, e);
        let n = t.chosen.len() as int;
        assert forall|i: int| 0 <= i < e.ops.len() && self.zero_is_nothing() implies chosen_for_some(
            e.choices,
            (#[trigger] e.ops[i]).0,
        ) by {
            positive_place(*self.ar, t.ops, t.ops.len() as int, i);
            let r = e.ops[i].0;
            assert(t.chosen.contains(Some(r as int as u32)));
            let at = choose|a: int| 0 <= a < n && t.chosen[a] == Some(r);
            chosen_listed(t.chosen, n, at, r);
            assert(e.choices.contains((at as u32, r)));
        }
        assert forall|i: int| 0 <= i < e.choices.len() implies overrides.entries@.contains(
            #[trigger] e.choices[i],
        ) || self.fit_for(e.choices[i].1, e.choices[i].0) by {
            chosen_place(t.chosen, n, i);
        }
    }

    /// What comes from outside has to: it is a source, nothing was chosen that
    /// makes it, or it was met so often on a cycle that the expansion gave up on
    /// it and says so.
    pub proof fn raw_comes_from_outside(self, overrides: Choices, e: Expanded)
        requires
            self.ok(),
            self.zero_is_nothing(),
            overrides.fits(*self.g),
            self.expands(overrides.entries@, e),
        ensures
            forall|i: int|
                0 <= i < e.raw.len() ==> {
                    let m = (#[trigger] e.raw[i]).0;
                    ||| self.g.source_spec(m)
                    ||| forall|r: RecipeId|
                        #[trigger] e.choices.contains((m, r)) ==> crate::util::qty_in(
                            self.g.recipes@[r as int].outputs@,
                            m,
                        ) is None
                    ||| e.notes.contains("部分材料循环展开次数超限，已按外部输入处理"@)
                },
    {
        let t = self.end_accounts(overrides, e);
        let n = t.chosen.len() as int;
        let limit = "部分材料循环展开次数超限，已按外部输入处理"@;
        if t.limit_hit {
            let names = names_to(*self.g, t.no_route, t.no_route.len() as int);
            let n1 = if t.no_route.len() > 0 {
                noted(t.notes, no_route_text(names))
            } else {
                t.notes
            };
            let n2 = noted(n1, limit);
            noted_holds(n1, limit, limit);
            let n3 = if !self.an.cost.converged {
                noted(n2, "成本迭代未完全收敛（存在复杂循环），估算值可能偏差"@)
            } else {
                n2
            };
            noted_holds(n2, "成本迭代未完全收敛（存在复杂循环），估算值可能偏差"@, limit);
            noted_holds(n3, "结果不完整：存在未满足需求或循环放大"@, limit);
        }
        assert forall|i: int| 0 <= i < e.raw.len() implies {
            let m = (#[trigger] e.raw[i]).0;
            ||| self.g.source_spec(m)
            ||| forall|r: RecipeId|
                #[trigger] e.choices.contains((m, r)) ==> crate::util::qty_in(
                    self.g.recipes@[r as int].outputs@,
                    m,
                ) is None
            ||| e.notes.contains(limit)
        } by {
            positive_place(*self.ar, t.raw, t.raw.len() as int, i);
            let m = e.raw[i].0;
            assert(self.from_outside(t, m as int));
            assert forall|r: RecipeId| #[trigger] e.choices.contains((m, r)) implies t.chosen[m as int]
                == Some(r) by {
                let at = choose|a: int| 0 <= a < e.choices.len() && e.choices[a] == (m, r);
                chosen_place(t.chosen, n, at);
            }
        }
    }
}

impl Choices {
    /// The materials and recipes are those of the graph, and the recipes are
    /// allowed.
    pub open spec fn suits<'a, A: Arithmetic>(self, x: Expansion<'a, A>) -> bool {
        self.fits(*x.g) && x.allows(self.entries@)
    }
}

impl TreeResult {
    /// The materials and recipes are those of the graph, and the recipes are
    /// allowed.
    pub open spec fn suits<'a, A: Arithmetic>(self, x: Expansion<'a, A>) -> bool {
        self.fits(*x.g) && x.lawful(self@)
    }
}

impl<'a, A: Arithmetic> Expansion<'a, A> {
    /// Every recipe makes its material, can be planned with, and is of an allowed
    /// tier.
    pub open spec fn allows(self, entries: Seq<(MaterialId, RecipeId)>) -> bool {
        forall|i: int|
            0 <= i < entries.len() ==> self.fit_for((#[trigger] entries[i]).1, entries[i].0)
    }

    /// What is listed is more than nothing, and the sums are those of the lists.
    pub open spec fn adds_up(self, e: Expanded) -> bool {
        &&& forall|i: int|
            0 <= i < e.ops.len() ==> self.ar.lt_spec(eps(*self.ar), (#[trigger] e.ops[i]).1)
        &&& forall|i: int|
            0 <= i < e.raw.len() ==> self.ar.lt_spec(eps(*self.ar), (#[trigger] e.raw[i]).1)
        &&& e.estimated_cost == cost_to(*self.ar, *self.g, e.raw, e.raw.len() as int)
        &&& e.ops_total == sum_to(*self.ar, e.ops, e.ops.len() as int)
    }

    /// Every recipe is allowed, those that run were chosen for a material, and the
    /// sums are right.
    pub open spec fn lawful(self, e: Expanded) -> bool {
        &&& self.adds_up(e)
        &&& self.allows(e.choices)
        &&& self.zero_is_nothing() ==> forall|i: int|
            0 <= i < e.ops.len() ==> chosen_for_some(e.choices, (#[trigger] e.ops[i]).0)
    }

    /// Where only allowed recipes are asked for, only allowed recipes are used.
    pub proof fn stays_lawful(self, choices: Choices, e: Expanded)
        requires
            self.ok(),
            choices.suits(self),
            self.expands(choices.entries@, e),
        ensures
            self.lawful(e),
    {
        self.recipes_are_allowed(choices, e);
        let k = choose|k: nat| #[trigger]
            self.after(self.start(choices.entries@), k).done() && e == self.finish(
                self.after(self.start(choices.entries@), k),
            );
        let t = self.after(self.start(choices.entries@), k);
        positive_is_more(*self.ar, t.ops, t.ops.len() as int);
        positive_is_more(*self.ar, t.raw, t.raw.len() as int);
        assert forall|i: int| 0 <= i < e.choices.len() implies self.fit_for(
            (#[trigger] e.choices[i]).1,
            e.choices[i].0,
        ) by {
            if choices.entries@.contains(e.choices[i]) {
                let k = choose|k: int|
                    0 <= k < choices.entries@.len() && choices.entries@[k] == e.choices[i];
                assert(self.fit_for(choices.entries@[k].1, choices.entries@[k].0));
            }
        }
    }

    /// Changing an allowed assignment to another allowed recipe keeps it allowed.
    pub proof fn change_suits(self, a: Choices, b: Choices, m: MaterialId, r: RecipeId)
        requires
            self.ok(),
            a.suits(self),
            m < self.g.m_count(),
            self.fit_for(r, m),
            b.entries@ == crate::choices::with_choice(a.entries@, m, r),
        ensures
            b.suits(self),
    {
        crate::choices::with_choice_fits(*self.g, a, b, m, r);
        assert forall|i: int| 0 <= i < b.entries@.len() implies self.fit_for(
            (#[trigger] b.entries@[i]).1,
            b.entries@[i].0,
        ) by {
            if b.entries@[i] != (m, r) {
                assert(a.entries@.contains(b.entries@[i]));
                let j = choose|j: int| 0 <= j < a.entries@.len() && a.entries@[j] == b.entries@[i];
                assert(self.fit_for(a.entries@[j].1, a.entries@[j].0));
            }
        }
    }
}

/// Some material has the recipe.
pub open spec fn chosen_for_some(choices: Seq<(MaterialId, RecipeId)>, r: RecipeId) -> bool {
    exists|m: MaterialId| #[trigger] choices.contains((m, r))
}

/// What is listed as more than nothing stands at its place.
proof fn positive_place<A: Arithmetic>(ar: A, v: Seq<Scalar>, n: int, i: int)
    requires
        0 <= n <= v.len() <= u32::MAX,
        0 <= i < positive_to(ar, v, n).len(),
    ensures
        ({
            let (m, x) = positive_to(ar, v, n)[i];
            m < n && v[m as int] == x && ar.lt_spec(eps(ar), x)
        }),
    decreases n,
{
    if n > 0 && i < positive_to(ar, v, n - 1).len() {
        positive_place(ar, v, n - 1, i);
    }
}

/// What is listed as chosen stands at its place.
proof fn chosen_place(chosen: Seq<Option<RecipeId>>, n: int, i: int)
    requires
        0 <= n <= chosen.len() <= u32::MAX,
        0 <= i < chosen_to(chosen, n).len(),
    ensures
        ({
            let (m, r) = chosen_to(chosen, n)[i];
            m < n && chosen[m as int] == Some(r)
        }),
    decreases n,
{
    if n > 0 && i < chosen_to(chosen, n - 1).len() {
        chosen_place(chosen, n - 1, i);
    }
}

/// A note stays, and what is noted is there.
proof fn noted_holds(notes: Seq<Seq<char>>, text: Seq<char>, x: Seq<char>)
    requires
        notes.contains(x) || x == text,
    ensures
        noted(notes, text).contains(x),
{
    let more = notes.push(text);
    assert(more.last() == text);
    if notes.contains(x) {
        let i = choose|i: int| 0 <= i < notes.len() && notes[i] == x;
        assert(more[i] == x);
    }
}

/// The note that closes the plans of the searches that expand.
pub open spec fn gt_note() -> Seq<char> {
    "原版配方无 GT 时长/耗电数据，机器数与 EU 仅统计 GT 配方"@
}

/// Plans a request by expansion.
pub fn plan_tree<A: Arithmetic>(ar: &A, g: &KnowledgeGraph, an: &Analysis, req: &PlanRequest) -> (plan:
    Plan)
    requires
        an.fits(*ar, *g),
        req.target < g.m_count(),
    ensures
        ({
            let e = (Expansion { ar, g, an, req }).expanded(Seq::empty());
            (Assembly { ar, g, an, alts: None }).assembles(
                req.target,
                req.rate_per_min,
                "tree"@,
                e.ops,
                e.raw,
                e.byproducts,
                e.notes.push(gt_note()),
                plan,
            )
        }),
        plan.metrics == PlanMetrics::none_spec(ar.ratio_spec(0, 1)),
        plan.elapsed_ms == ar.ratio_spec(0, 1),
{
    let none = Choices::new();
    assert(none.entries@ =~= Seq::<(MaterialId, RecipeId)>::empty());
    let res = expand_tree(ar, g, an, req, &none);
    proof {
        (Expansion { ar, g, an, req }).expanded_is(Seq::empty(), res@);
    }
    let mut notes = res.notes;
    let ghost given = crate::intern::texts(notes@);
    notes.push("原版配方无 GT 时长/耗电数据，机器数与 EU 仅统计 GT 配方".to_owned());
    assert(crate::intern::texts(notes@) =~= given.push(gt_note()));
    let zero = ar.ratio(0, 1);
    let assembly = Assembly { ar, g, an, alts: None };
    assembly.assemble(
        req.target,
        req.rate_per_min,
        "tree",
        &res.ops,
        &res.raw,
        &res.byproducts,
        PlanMetrics::none(zero),
        notes,
        zero,
    )
}

} // verus!

//! Exact plans by linear programming.
//!
//! A variable stands for the operations of each recipe, for what comes of each
//! material from outside, and, where a slot has several candidates, for how much
//! each of them fills. Each material balances: what is made and what comes from
//! outside covers what is used and what is asked for. What fills a slot adds up to
//! the operations of its recipe. What comes from outside costs its price, the
//! more so where it could be made; an operation costs energy, machine time and a
//! little for itself.
//!
//! The program is made here out of the part of the graph that matters for the
//! target, whoever uses the library has it solved, and the plan is made here out
//! of the solution.
use std::collections::HashMap;

use vstd::prelude::*;

use crate::analysis::Analysis;
use crate::graph::KnowledgeGraph;
use crate::list::{filled, sum_capped};
use crate::model::{MaterialId, MaterialKind, RecipeId, RecipeNode, Slot};
use crate::order::sort_positions;
use crate::plan::{Plan, PlanMetrics};
use crate::planner::assemble::Assembly;
use crate::planner::beam::count_one;
use crate::scalar::{Arithmetic, Scalar};
use crate::text::{decimal_string, joined};
use crate::util::{cheapest_alt, mat_norm_qty, output_qty_of, recipe_cost, tier_allowed};

verus! {

/// How many candidates of a slot the program chooses among.
pub const MAX_SLOT_ALTS: usize = 4;

/// How many producers of a material are taken in.
pub const MAX_PRODUCERS_PER_MATERIAL: usize = 32;

/// How an exact plan is made.
#[derive(Clone, Debug)]
pub struct ExactOptions {
    /// Recipes that recycle may be used.
    pub include_recycling: bool,
    /// Recipes on a cycle that give more than they take may not be used.
    pub block_amplification: bool,
    pub max_materials: usize,
    pub max_recipes: usize,
    /// What an operation costs by itself.
    pub ops_penalty: Scalar,
    /// The highest tier of machines; none means no limit.
    pub max_tier: Option<u8>,
}

impl ExactOptions {
    /// The options that are used where none are given.
    pub fn standard<A: Arithmetic>(ar: &A) -> (r: Self)
        ensures
            r == (ExactOptions {
                include_recycling: false,
                block_amplification: false,
                max_materials: 6000,
                max_recipes: 30000,
                ops_penalty: ar.ratio_spec(1, 1_000_000),
                max_tier: None,
            }),
    {
        ExactOptions {
            include_recycling: false,
            block_amplification: false,
            max_materials: 6000,
            max_recipes: 30000,
            ops_penalty: ar.ratio(1, 1_000_000),
            max_tier: None,
        }
    }
}

/// What an input slot takes: one material, or one of several that the program
/// chooses. Materials are given by their place in the program.
#[derive(Debug)]
pub enum LpInput {
    Direct { material: usize, qty: Scalar },
    Choice { alts: Vec<(usize, Scalar)> },
}

/// A recipe of the program.
#[derive(Debug)]
pub struct LpRecipe {
    pub rid: RecipeId,
    pub inputs: Vec<LpInput>,
    pub outputs: Vec<(usize, Scalar)>,
}

/// An input slot, for contracts.
pub enum Feed {
    Direct { material: usize, qty: Scalar },
    Choice { alts: Seq<(usize, Scalar)> },
}

/// A recipe of the program, for contracts.
pub struct Entry {
    pub rid: RecipeId,
    pub inputs: Seq<Feed>,
    pub outputs: Seq<(usize, Scalar)>,
}

impl View for LpInput {
    type V = Feed;

    open spec fn view(&self) -> Feed {
        match self {
            LpInput::Direct { material, qty } => Feed::Direct { material: *material, qty: *qty },
            LpInput::Choice { alts } => Feed::Choice { alts: alts@ },
        }
    }
}

/// The input slots of a recipe.
pub open spec fn feeds_of(v: Seq<LpInput>) -> Seq<Feed> {
    v.map_values(|i: LpInput| i@)
}

impl View for LpRecipe {
    type V = Entry;

    open spec fn view(&self) -> Entry {
        Entry { rid: self.rid, inputs: feeds_of(self.inputs@), outputs: self.outputs@ }
    }
}

/// Recipes of a program.
pub open spec fn entries_of(v: Seq<LpRecipe>) -> Seq<Entry> {
    v.map_values(|r: LpRecipe| r@)
}

/// The part of a graph that matters for a target, on its way.
pub struct Part {
    /// The materials; their places are their numbers in the program.
    pub materials: Seq<MaterialId>,
    /// The materials whose producers were not taken in yet, with their priority.
    pub waiting: Seq<(u64, MaterialId)>,
    pub recipes: Seq<Entry>,
    /// A limit was reached.
    pub truncated: bool,
    pub skipped_recycling: usize,
    pub skipped_amplifying: usize,
}

/// The recipe is there.
pub open spec fn taken_in(recipes: Seq<Entry>, rid: RecipeId) -> bool {
    exists|i: int| 0 <= i < recipes.len() && (#[trigger] recipes[i]).rid == rid
}

/// A pair comes first: it has the smaller priority, or the smaller material.
pub open spec fn sooner(a: (u64, MaterialId), b: (u64, MaterialId)) -> bool {
    a.0 < b.0 || (a.0 == b.0 && a.1 < b.1)
}

/// The position of the first pair among the first `i`.
pub open spec fn first_to(waiting: Seq<(u64, MaterialId)>, i: int) -> int
    decreases i,
{
    if i <= 1 {
        0
    } else {
        let best = first_to(waiting, i - 1);
        if sooner(waiting[i - 1], waiting[best]) {
            i - 1
        } else {
            best
        }
    }
}

/// The candidates of a slot on their way: place, quantity and price of each.
pub struct Offer {
    pub part: Part,
    pub alts: Seq<(usize, u64, Scalar)>,
    /// There was room for all so far.
    pub usable: bool,
}

/// The inputs of a recipe on their way.
pub struct Intake {
    pub part: Part,
    pub inputs: Seq<Feed>,
    pub usable: bool,
}

/// The outputs of a recipe on their way.
pub struct Output {
    pub part: Part,
    pub outputs: Seq<(usize, Scalar)>,
    /// There was no room for one.
    pub stopped: bool,
}

/// The producers of a material on their way.
pub struct Producers {
    pub list: Seq<(Scalar, RecipeId)>,
    pub skipped: usize,
}

/// Cheaper producers first, producers of one price by number.
pub open spec fn producer_order<A: Arithmetic>(ar: A, s: Seq<(Scalar, RecipeId)>) -> spec_fn(
    int,
    int,
) -> bool {
    |i: int, j: int|
        ar.total_before_spec(s[i].0, s[j].0) || (!ar.total_before_spec(s[j].0, s[i].0) && s[i].1
            < s[j].1)
}

/// Cheaper candidates first.
pub open spec fn offer_order<A: Arithmetic>(ar: A, s: Seq<(usize, u64, Scalar)>) -> spec_fn(
    int,
    int,
) -> bool {
    |i: int, j: int| ar.total_before_spec(s[i].2, s[j].2)
}

/// Makes exact plans.
pub struct Exact<'a, A> {
    pub ar: &'a A,
    pub g: &'a KnowledgeGraph,
    pub an: &'a Analysis,
    pub target: MaterialId,
    pub rate_per_min: Scalar,
    pub opts: &'a ExactOptions,
}

impl<'a, A: Arithmetic> Exact<'a, A> {
    pub open spec fn ok(self) -> bool {
        &&& self.an.fits(*self.ar, *self.g)
        &&& self.target < self.g.m_count()
    }

    /// What a unit of `m` costs by recipe `rid`.
    pub open spec fn score(self, rid: RecipeId, m: MaterialId) -> Scalar {
        let r = self.g.recipes@[rid as int];
        let rc = crate::util::recipe_cost_spec(
            *self.ar,
            *self.g,
            self.an.cost.unit_cost@,
            Some(self.an.cost.cyclic@),
            r,
        );
        match crate::util::qty_in(r.outputs@, m) {
            Some(q) => {
                let nq = crate::util::mat_norm_spec(*self.ar, *self.g, m, q);
                if self.ar.finite_spec(rc) && self.ar.lt_spec(self.ar.ratio_spec(0, 1), nq) {
                    self.ar.over_spec(rc, nq)
                } else {
                    self.ar.infinity_spec()
                }
            },
            None => self.ar.infinity_spec(),
        }
    }

    /// What the first `s` output slots give, in comparable units.
    pub open spec fn given_to(self, slots: Seq<Slot>, s: int) -> Scalar
        decreases s,
    {
        if s <= 0 {
            self.ar.ratio_spec(0, 1)
        } else {
            let rest = self.given_to(slots, s - 1);
            match slots[s - 1].primary_spec() {
                Some((m, q)) => self.ar.plus_spec(
                    rest,
                    crate::util::mat_norm_spec(*self.ar, *self.g, m, q),
                ),
                None => rest,
            }
        }
    }

    /// What the first `s` input slots take by their cheapest candidates.
    pub open spec fn used_to(self, slots: Seq<Slot>, s: int) -> Scalar
        decreases s,
    {
        if s <= 0 {
            self.ar.ratio_spec(0, 1)
        } else {
            let rest = self.used_to(slots, s - 1);
            match crate::util::cheapest_spec(
                *self.ar,
                *self.g,
                self.an.cost.unit_cost@,
                Some(self.an.cost.cyclic@),
                slots[s - 1],
            ) {
                Some((m, q)) => self.ar.plus_spec(
                    rest,
                    crate::util::mat_norm_spec(*self.ar, *self.g, m, q),
                ),
                None => rest,
            }
        }
    }

    /// What a recipe gives for each unit that it takes.
    pub open spec fn gain(self, r: RecipeNode) -> Scalar {
        let out = self.given_to(r.outputs@, r.outputs@.len() as int);
        let inp = self.used_to(r.inputs@, r.inputs@.len() as int);
        if self.ar.lt_spec(self.ar.ratio_spec(0, 1), inp) {
            self.ar.over_spec(out, inp)
        } else {
            self.ar.infinity_spec()
        }
    }

    /// The recipe lies on a cycle.
    pub open spec fn on_cycle(self, rid: RecipeId) -> bool {
        self.an.scc.sizes@[self.an.scc.comp@[self.g.m_count() + rid as int] as int] > 1
    }

    /// The recipe recycles and may not.
    pub open spec fn recycles(self, rid: RecipeId) -> bool {
        !self.opts.include_recycling && self.g.recycling_spec(rid)
    }

    /// The recipe may be used.
    pub open spec fn usable(self, rid: RecipeId) -> bool {
        &&& self.g.plannable@[rid as int]
        &&& !self.recycles(rid)
        &&& crate::util::tier_allowed_spec(*self.g, rid, self.opts.max_tier)
    }

    /// The best price of the first `i` producers of a material.
    pub open spec fn best_to(self, m: MaterialId, i: int) -> Scalar
        decreases i,
    {
        if i <= 0 {
            self.ar.infinity_spec()
        } else {
            let best = self.best_to(m, i - 1);
            let rid = self.g.producers@[m as int]@[i - 1];
            if self.usable(rid) && self.ar.lt_spec(self.score(rid, m), best) {
                self.score(rid, m)
            } else {
                best
            }
        }
    }

    /// The priority of a material: its depth, then its best price.
    pub open spec fn priority(self, m: MaterialId) -> u64 {
        let d = self.an.cost.depth@[m as int];
        let depth = if d < 0xffff { d as int } else { 0xffff };
        (depth * 0x1_0000_0000 + self.ar.rank_spec(
            self.best_to(m, self.g.producers@[m as int]@.len() as int),
        )) as u64
    }

    /// The usable ones of the first `i` producers of a material, with prices.
    pub open spec fn producers_to(self, skipped: usize, m: MaterialId, i: int) -> Producers
        decreases i,
    {
        if i <= 0 {
            Producers { list: Seq::empty(), skipped }
        } else {
            let before = self.producers_to(skipped, m, i - 1);
            let rid = self.g.producers@[m as int]@[i - 1];
            if self.g.plannable@[rid as int] && self.recycles(rid) {
                Producers { skipped: crate::planner::beam::one_more(before.skipped), ..before }
            } else if self.usable(rid) {
                Producers { list: before.list.push((self.score(rid, m), rid)), ..before }
            } else {
                before
            }
        }
    }

    /// The producers of a material that are taken in, cheapest first.
    pub open spec fn chosen_producers(self, m: MaterialId) -> Seq<(Scalar, RecipeId)> {
        let all = self.producers_to(0, m, self.g.producers@[m as int]@.len() as int).list;
        crate::planner::beam::first_of(
            crate::order::sorted(all, producer_order(*self.ar, all)),
            MAX_PRODUCERS_PER_MATERIAL as int,
        )
    }

    /// The part with a material in it, where there is room.
    pub open spec fn with_material(self, p: Part, m: MaterialId) -> Part {
        if crate::list::place(p.materials, m) is Some {
            p
        } else if p.materials.len() >= self.opts.max_materials {
            Part { truncated: true, ..p }
        } else {
            Part {
                materials: p.materials.push(m),
                waiting: p.waiting.push((self.priority(m), m)),
                ..p
            }
        }
    }

    /// The price of a candidate.
    pub open spec fn price(self, m: MaterialId, q: u64) -> Scalar {
        let c = self.an.cost.unit_cost@[m as int];
        self.ar.times_spec(
            if self.ar.finite_spec(c) {
                c
            } else {
                self.ar.ratio_spec(1_000_000, 1)
            },
            crate::util::mat_norm_spec(*self.ar, *self.g, m, q),
        )
    }

    /// The first `a` candidates of a slot.
    pub open spec fn offer_to(self, p: Part, alts: Seq<(MaterialId, u64)>, a: int) -> Offer
        decreases a,
    {
        if a <= 0 {
            Offer { part: p, alts: Seq::empty(), usable: true }
        } else {
            let before = self.offer_to(p, alts, a - 1);
            if !before.usable {
                before
            } else {
                let (m, q) = alts[a - 1];
                let part = self.with_material(before.part, m);
                match crate::list::place(part.materials, m) {
                    Some(at) => Offer {
                        part,
                        alts: before.alts.push((at, q, self.price(m, q))),
                        usable: true,
                    },
                    None => Offer { part, usable: false, ..before },
                }
            }
        }
    }

    /// What a slot takes.
    pub open spec fn feed(self, alts: Seq<(usize, u64, Scalar)>) -> Feed {
        if alts.len() == 1 {
            Feed::Direct { material: alts[0].0, qty: self.ar.ratio_spec(alts[0].1, 1) }
        } else {
            Feed::Choice {
                alts: crate::planner::beam::first_of(
                    crate::order::sorted(alts, offer_order(*self.ar, alts)),
                    MAX_SLOT_ALTS as int,
                ).map_values(
                    |x: (usize, u64, Scalar)| (x.0, self.ar.ratio_spec(x.1, 1)),
                ),
            }
        }
    }

    /// The first `s` input slots of a recipe.
    pub open spec fn intake_to(self, p: Part, slots: Seq<Slot>, s: int) -> Intake
        decreases s,
    {
        if s <= 0 {
            Intake { part: p, inputs: Seq::empty(), usable: true }
        } else {
            let before = self.intake_to(p, slots, s - 1);
            if !before.usable {
                before
            } else {
                let alts = slots[s - 1].alts@;
                let offer = self.offer_to(before.part, alts, alts.len() as int);
                if offer.usable && offer.alts.len() > 0 {
                    Intake {
                        part: offer.part,
                        inputs: before.inputs.push(self.feed(offer.alts)),
                        usable: true,
                    }
                } else {
                    Intake { part: offer.part, usable: false, ..before }
                }
            }
        }
    }

    /// The first `s` output slots of a recipe.
    pub open spec fn output_to(self, p: Part, rid: RecipeId, s: int) -> Output
        decreases s,
    {
        if s <= 0 {
            Output { part: p, outputs: Seq::empty(), stopped: false }
        } else {
            let before = self.output_to(p, rid, s - 1);
            match self.g.recipes@[rid as int].outputs@[s - 1].primary_spec() {
                Some((m, q)) if !before.stopped => {
                    let part = self.with_material(before.part, m);
                    match crate::list::place(part.materials, m) {
                        Some(at) => Output {
                            part,
                            outputs: before.outputs.push(
                                (
                                    at,
                                    self.ar.times_spec(
                                        self.ar.ratio_spec(q, 1),
                                        self.g.output_chance_spec(*self.ar, rid, m),
                                    ),
                                ),
                            ),
                            stopped: false,
                        },
                        None => Output { part, stopped: true, ..before },
                    }
                },
                _ => before,
            }
        }
    }

    /// A recipe on a cycle gives more than it takes, and may not.
    pub open spec fn amplifies(self, rid: RecipeId) -> bool {
        self.opts.block_amplification && self.on_cycle(rid) && self.ar.lt_spec(
            self.ar.plus_spec(
                self.ar.ratio_spec(1, 1),
                self.ar.ratio_spec(1, 1_000_000_000),
            ),
            self.gain(self.g.recipes@[rid as int]),
        )
    }

    /// The recipe is passed over: it is there, or takes or gives nothing.
    pub open spec fn passed_over(self, p: Part, rid: RecipeId) -> bool {
        let r = self.g.recipes@[rid as int];
        taken_in(p.recipes, rid) || r.inputs@.len() == 0 || r.outputs@.len() == 0
    }

    /// No further recipe finds room.
    pub open spec fn full(self, p: Part) -> bool {
        p.recipes.len() >= self.opts.max_recipes
    }

    /// The part with a recipe in it, where that can be used.
    pub open spec fn with_recipe(self, p: Part, rid: RecipeId) -> Part {
        let r = self.g.recipes@[rid as int];
        if self.passed_over(p, rid) {
            p
        } else if self.amplifies(rid) {
            Part {
                skipped_amplifying: crate::planner::beam::one_more(p.skipped_amplifying),
                ..p
            }
        } else if self.full(p) {
            Part { truncated: true, ..p }
        } else {
            let intake = self.intake_to(p, r.inputs@, r.inputs@.len() as int);
            if !intake.usable {
                intake.part
            } else {
                let out = self.output_to(intake.part, rid, r.outputs@.len() as int);
                if out.outputs.len() == 0 {
                    out.part
                } else {
                    Part {
                        recipes: out.part.recipes.push(
                            Entry { rid, inputs: intake.inputs, outputs: out.outputs },
                        ),
                        ..out.part
                    }
                }
            }
        }
    }

    /// The recipe finds no room, and none is looked at after it.
    pub open spec fn stops(self, p: Part, rid: RecipeId) -> bool {
        !self.passed_over(p, rid) && !self.amplifies(rid) && self.full(p)
    }

    /// The part after the producers from the `i`-th on.
    pub open spec fn with_recipes(
        self,
        p: Part,
        list: Seq<(Scalar, RecipeId)>,
        i: nat,
    ) -> Part
        decreases list.len() - i,
    {
        if i >= list.len() {
            p
        } else if self.stops(p, list[i as int].1) {
            self.with_recipe(p, list[i as int].1)
        } else {
            self.with_recipes(self.with_recipe(p, list[i as int].1), list, i + 1)
        }
    }

    /// One step: the producers of the first waiting material are taken in.
    pub open spec fn step(self, p: Part) -> Part {
        let at = first_to(p.waiting, p.waiting.len() as int);
        let m = p.waiting[at].1;
        let prods = self.producers_to(
            p.skipped_recycling,
            m,
            self.g.producers@[m as int]@.len() as int,
        );
        self.with_recipes(
            Part { waiting: p.waiting.remove(at), skipped_recycling: prods.skipped, ..p },
            self.chosen_producers(m),
            0,
        )
    }

    /// Nothing more is taken in.
    pub open spec fn done(self, p: Part) -> bool {
        p.waiting.len() == 0 || (p.truncated && self.full(p))
    }

    pub open spec fn start(self) -> Part {
        Part {
            materials: seq![self.target],
            waiting: seq![(self.priority(self.target), self.target)],
            recipes: Seq::empty(),
            truncated: false,
            skipped_recycling: 0,
            skipped_amplifying: 0,
        }
    }
}

impl<'a, A: Arithmetic> Exact<'a, A> {
    /// The part after `k` steps from `p`, or fewer if nothing more is taken in.
    pub open spec fn after(self, p: Part, k: nat) -> Part
        decreases k,
    {
        if k == 0 || self.done(p) {
            p
        } else {
            self.after(self.step(p), (k - 1) as nat)
        }
    }

    /// `p` is the part of the graph that matters for the target.
    pub open spec fn matters(self, p: Part) -> bool {
        exists|k: nat| p == #[trigger] self.after(self.start(), k) && self.done(p)
    }

    proof fn after_step(self, p: Part, k: nat)
        requires
            !self.done(self.after(p, k)),
        ensures
            self.after(p, k + 1) == self.step(self.after(p, k)),
        decreases k,
    {
        reveal_with_fuel(Exact::after, 2);
        if k > 0 && !self.done(p) {
            self.after_step(self.step(p), (k - 1) as nat);
        }
    }

    proof fn producers_same(self, skipped: usize, m: MaterialId, i: int)
        ensures
            self.producers_to(skipped, m, i).list == self.producers_to(0, m, i).list,
        decreases i,
    {
        if i > 0 {
            self.producers_same(skipped, m, i - 1);
        }
    }

    fn producer_score(&self, rid: RecipeId, m: MaterialId) -> (r: Scalar)
        requires
            self.ok(),
            rid < self.g.r_count(),
            m < self.g.m_count(),
        ensures
            r == self.score(rid, m),
    {
        let r = self.g.recipe(rid);
        let rc = recipe_cost(
            self.ar,
            self.g,
            &self.an.cost.unit_cost,
            Some(&self.an.cost.cyclic),
            r,
        );
        match output_qty_of(r, m) {
            Some(q) => {
                let nq = mat_norm_qty(self.ar, self.g, m, q);
                if self.ar.is_finite(rc) && self.ar.lt(self.ar.ratio(0, 1), nq) {
                    self.ar.over(rc, nq)
                } else {
                    self.ar.infinity()
                }
            },
            None => self.ar.infinity(),
        }
    }

    fn recipe_gain(&self, rid: RecipeId) -> (r: Scalar)
        requires
            self.ok(),
            rid < self.g.r_count(),
        ensures
            r == self.gain(self.g.recipes@[rid as int]),
    {
        let ar = self.ar;
        let r = self.g.recipe(rid);
        let mut out = ar.ratio(0, 1);
        let mut s: usize = 0;
        while s < r.outputs.len()
            invariant
                s <= r.outputs@.len(),
                self.ok(),
                ar == self.ar,
                rid < self.g.r_count(),
                *r == self.g.recipes@[rid as int],
                out == self.given_to(r.outputs@, s as int),
            decreases r.outputs@.len() - s,
        {
            assert(crate::graph::slots_ok(r.outputs@, self.g.m_count()));
            assert(crate::graph::slot_ok(r.outputs@[s as int], self.g.m_count()));
            if let Some((m, q)) = r.outputs[s].primary() {
                out = ar.plus(out, mat_norm_qty(ar, self.g, m, q));
            }
            s += 1;
        }
        let mut inp = ar.ratio(0, 1);
        let mut s: usize = 0;
        while s < r.inputs.len()
            invariant
                s <= r.inputs@.len(),
                self.ok(),
                ar == self.ar,
                rid < self.g.r_count(),
                *r == self.g.recipes@[rid as int],
                inp == self.used_to(r.inputs@, s as int),
            decreases r.inputs@.len() - s,
        {
            assert(crate::graph::slots_ok(r.inputs@, self.g.m_count()));
            assert(crate::graph::slot_ok(r.inputs@[s as int], self.g.m_count()));
            if let Some((m, q)) = cheapest_alt(
                ar,
                self.g,
                &self.an.cost.unit_cost,
                Some(&self.an.cost.cyclic),
                &r.inputs[s],
            ) {
                inp = ar.plus(inp, mat_norm_qty(ar, self.g, m, q));
            }
            s += 1;
        }
        if ar.lt(ar.ratio(0, 1), inp) {
            ar.over(out, inp)
        } else {
            ar.infinity()
        }
    }

    fn is_on_cycle(&self, rid: RecipeId) -> (r: bool)
        requires
            self.ok(),
            rid < self.g.r_count(),
        ensures
            r == self.on_cycle(rid),
    {
        let comp: u32 = self.an.scc.comp[self.g.materials.len() + rid as usize];
        self.an.scc.sizes[comp as usize] > 1
    }

    fn does_recycle(&self, rid: RecipeId) -> (r: bool)
        requires
            self.ok(),
            rid < self.g.r_count(),
        ensures
            r == self.recycles(rid),
    {
        !self.opts.include_recycling && self.g.is_recycling(rid)
    }

    fn heap_prio(&self, m: MaterialId) -> (r: u64)
        requires
            self.ok(),
            m < self.g.m_count(),
        ensures
            r == self.priority(m),
    {
        let d: u32 = self.an.cost.depth[m as usize];
        let depth: u64 = if d < 0xffff { d as u64 } else { 0xffff };
        let prods = &self.g.producers[m as usize];
        let mut best = self.ar.infinity();
        let mut i: usize = 0;
        while i < prods.len()
            invariant
                i <= prods@.len(),
                self.ok(),
                m < self.g.m_count(),
                prods@ == self.g.producers@[m as int]@,
                best == self.best_to(m, i as int),
            decreases prods@.len() - i,
        {
            let rid: u32 = prods[i];
            proof {
                let p = |r: int| self.g.produces(r, m as int as u32);
                assert(crate::graph::lists(self.g.producers@[m as int]@, self.g.r_count(), p));
            }
            if self.g.is_plannable(rid) && !self.does_recycle(rid) && tier_allowed(
                self.g,
                rid,
                self.opts.max_tier,
            ) {
                let s = self.producer_score(rid, m);
                if self.ar.lt(s, best) {
                    best = s;
                }
            }
            i += 1;
        }
        depth * 0x1_0000_0000 + self.ar.rank(best) as u64
    }
}

/// The places of a slot are places of materials.
pub open spec fn feed_ok(f: Feed, n: int) -> bool {
    match f {
        Feed::Direct { material, qty } => material < n,
        Feed::Choice { alts } => {
            &&& alts.len() > 0
            &&& forall|a: int| 0 <= a < alts.len() ==> (#[trigger] alts[a]).0 < n
        },
    }
}

/// The recipe is one of the graph, and its places are places of materials.
pub open spec fn entry_ok(e: Entry, n: int, recipes: int) -> bool {
    &&& e.rid < recipes
    &&& forall|s: int| 0 <= s < e.inputs.len() ==> feed_ok(#[trigger] e.inputs[s], n)
    &&& forall|s: int| 0 <= s < e.outputs.len() ==> (#[trigger] e.outputs[s]).0 < n
}

proof fn entry_ok_more(e: Entry, n: int, more: int, recipes: int)
    requires
        entry_ok(e, n, recipes),
        n <= more,
    ensures
        entry_ok(e, more, recipes),
{
    assert forall|s: int| 0 <= s < e.inputs.len() implies feed_ok(#[trigger] e.inputs[s], more) by {
        assert(feed_ok(e.inputs[s], n));
    }
}

/// The part of a graph that matters, on its way.
struct Building {
    materials: Vec<MaterialId>,
    places: Vec<Option<usize>>,
    waiting: Vec<(u64, MaterialId)>,
    recipes: Vec<LpRecipe>,
    taken: Vec<bool>,
    truncated: bool,
    skipped_recycling: usize,
    skipped_amplifying: usize,
}

impl View for Building {
    type V = Part;

    closed spec fn view(&self) -> Part {
        Part {
            materials: self.materials@,
            waiting: self.waiting@,
            recipes: entries_of(self.recipes@),
            truncated: self.truncated,
            skipped_recycling: self.skipped_recycling,
            skipped_amplifying: self.skipped_amplifying,
        }
    }
}

/// The materials and recipes are those of the graph.
pub open spec fn part_ok(p: Part, g: KnowledgeGraph) -> bool {
    &&& forall|i: int| 0 <= i < p.materials.len() ==> #[trigger] p.materials[i] < g.m_count()
    &&& forall|i: int| 0 <= i < p.waiting.len() ==> (#[trigger] p.waiting[i]).1 < g.m_count()
    &&& forall|i: int|
        0 <= i < p.recipes.len() ==> entry_ok(
            #[trigger] p.recipes[i],
            p.materials.len() as int,
            g.r_count(),
        )
}

impl Building {
    spec fn inv(self, g: KnowledgeGraph) -> bool {
        &&& part_ok(self@, g)
        &&& self.places@.len() == g.m_count()
        &&& forall|m: int|
            0 <= m < g.m_count() ==> #[trigger] self.places@[m] == crate::list::place(
                self.materials@,
                m as MaterialId,
            )
        &&& self.taken@.len() == g.r_count()
        &&& forall|r: int|
            0 <= r < g.r_count() ==> #[trigger] self.taken@[r] == taken_in(self@.recipes, r as RecipeId)
    }
}

impl<'a, A: Arithmetic> Exact<'a, A> {
    /// The target is the first material, each material and each recipe is there
    /// once, there are no more of them than allowed, and every recipe may be used:
    /// it can be planned with, its tier is allowed, it recycles only where that is
    /// asked for, and it does not amplify where that is blocked.
    pub open spec fn kept(self, p: Part) -> bool {
        &&& p.materials.len() > 0
        &&& p.materials[0] == self.target
        &&& p.materials.no_duplicates()
        &&& p.materials.len() <= self.opts.max_materials || p.materials.len() == 1
        &&& p.recipes.len() <= self.opts.max_recipes
        &&& forall|i: int, j: int|
            0 <= i < j < p.recipes.len() ==> (#[trigger] p.recipes[i]).rid != (
            #[trigger] p.recipes[j]).rid
        &&& forall|i: int|
            0 <= i < p.recipes.len() ==> self.usable((#[trigger] p.recipes[i]).rid)
                && !self.amplifies(p.recipes[i].rid)
    }

    /// How many more materials find room.
    spec fn room(self, p: Part) -> int {
        if self.opts.max_materials > p.materials.len() {
            self.opts.max_materials - p.materials.len()
        } else {
            0
        }
    }

    fn add_material(&self, b: &mut Building, m: MaterialId) -> (r: Option<usize>)
        requires
            self.ok(),
            old(b).inv(*self.g),
            self.kept(old(b)@),
            m < self.g.m_count(),
        ensures
            final(b).inv(*self.g),
            self.kept(final(b)@),
            final(b)@ == self.with_material(old(b)@, m),
            r == crate::list::place(final(b)@.materials, m),
            r matches Some(at) ==> at < final(b)@.materials.len(),
            final(b)@.materials.len() >= old(b)@.materials.len(),
            final(b)@.recipes == old(b)@.recipes,
            self.room(final(b)@) <= self.room(old(b)@),
            final(b)@.waiting == old(b)@.waiting || self.room(final(b)@) < self.room(old(b)@),
    {
        let ghost start = b@;
        let at: usize = b.materials.len();
        proof {
            crate::list::place_below(b.materials@, m);
            if crate::list::place(b.materials@, m) is None {
                crate::list::place_none(b.materials@, m);
            }
        }
        assert(b.places@[m as int] == crate::list::place(b.materials@, m as int as u32));
        if let Some(found) = b.places[m as usize] {
            return Some(found);
        }
        if at >= self.opts.max_materials {
            b.truncated = true;
            assert(b@ == (Part { truncated: true, ..start }));
            assert(part_ok(start, *self.g));
            return None;
        }
        let ghost before = b.materials@;
        b.materials.push(m);
        b.places[m as usize] = Some(at);
        b.waiting.push((self.heap_prio(m), m));
        proof {
            let after = b.materials@;
            let next = Part {
                materials: start.materials.push(m),
                waiting: start.waiting.push((self.priority(m), m)),
                ..start
            };
            assert(b@ == next);
            assert(part_ok(start, *self.g));
            assert(after.drop_last() =~= before);
            assert forall|x: int| 0 <= x < self.g.m_count() implies #[trigger] b.places@[x] == crate::list::place(
                after,
                x as MaterialId,
            ) by {
                if x != m {
                    assert(x as MaterialId != m);
                }
            }
            assert forall|i: int| 0 <= i < next.recipes.len() implies entry_ok(
                #[trigger] next.recipes[i],
                after.len() as int,
                self.g.r_count(),
            ) by {
                entry_ok_more(
                    start.recipes[i],
                    before.len() as int,
                    after.len() as int,
                    self.g.r_count(),
                );
            }
            assert(part_ok(next, *self.g));
        }
        Some(at)
    }

    fn list_offer(&self, b: &mut Building, slot: &Slot) -> (r: (Vec<(usize, u64, Scalar)>, bool))
        requires
            self.ok(),
            old(b).inv(*self.g),
            self.kept(old(b)@),
            crate::graph::slot_ok(*slot, self.g.m_count()),
        ensures
            final(b).inv(*self.g),
            self.kept(final(b)@),
            (Offer { part: final(b)@, alts: r.0@, usable: r.1 }) == self.offer_to(
                old(b)@,
                slot.alts@,
                slot.alts@.len() as int,
            ),
            forall|i: int|
                0 <= i < r.0@.len() ==> (#[trigger] r.0@[i]).0 < final(b)@.materials.len(),
            final(b)@.materials.len() >= old(b)@.materials.len(),
            final(b)@.recipes == old(b)@.recipes,
            self.room(final(b)@) <= self.room(old(b)@),
            final(b)@.waiting == old(b)@.waiting || self.room(final(b)@) < self.room(old(b)@),
    {
        let ghost start = b@;
        let mut alts: Vec<(usize, u64, Scalar)> = Vec::new();
        let mut usable = true;
        let mut a: usize = 0;
        while a < slot.alts.len()
            invariant
                a <= slot.alts@.len(),
                self.ok(),
                b.inv(*self.g),
                self.kept(b@),
                crate::graph::slot_ok(*slot, self.g.m_count()),
                (Offer { part: b@, alts: alts@, usable }) == self.offer_to(
                    start,
                    slot.alts@,
                    a as int,
                ),
                forall|i: int| 0 <= i < alts@.len() ==> (#[trigger] alts@[i]).0 < b@.materials.len(),
                b@.materials.len() >= start.materials.len(),
                b@.recipes == start.recipes,
                self.room(b@) <= self.room(start),
                b@.waiting == start.waiting || self.room(b@) < self.room(start),
            decreases slot.alts@.len() - a,
        {
            if usable {
                let (m, q): (u32, u64) = slot.alts[a];
                assert(slot.alts@[a as int].0 < self.g.m_count());
                match self.add_material(b, m) {
                    Some(at) => {
                        let c = self.an.cost.unit_cost[m as usize];
                        let price = if self.ar.is_finite(c) {
                            c
                        } else {
                            self.ar.ratio(1_000_000, 1)
                        };
                        alts.push(
                            (at, q, self.ar.times(price, mat_norm_qty(self.ar, self.g, m, q))),
                        );
                    },
                    None => {
                        usable = false;
                    },
                }
            }
            a += 1;
        }
        (alts, usable)
    }

    fn make_feed(&self, alts: Vec<(usize, u64, Scalar)>, Ghost(n): Ghost<int>) -> (r: LpInput)
        requires
            alts@.len() > 0,
            forall|i: int| 0 <= i < alts@.len() ==> (#[trigger] alts@[i]).0 < n,
        ensures
            r@ == self.feed(alts@),
            feed_ok(r@, n),
    {
        let ar = self.ar;
        if alts.len() == 1 {
            return LpInput::Direct { material: alts[0].0, qty: ar.ratio(alts[0].1, 1) };
        }
        let ghost before = offer_order(*ar, alts@);
        proof {
            ar.total_before_orders();
        }
        let less = |i: usize, j: usize| -> (b: bool)
            requires
                i < alts@.len() && j < alts@.len(),
            ensures
                b == ar.total_before_spec(alts@[i as int].2, alts@[j as int].2),
            { ar.total_before(alts[i].2, alts[j].2) };
        let p = sort_positions(alts.len(), less, Ghost(before));
        proof {
            crate::order::sorted_is(alts@, before, p@);
        }
        let ghost all = crate::order::sorted(alts@, before);
        let mut list: Vec<(usize, Scalar)> = Vec::new();
        let mut i: usize = 0;
        while i < p.len() && i < MAX_SLOT_ALTS
            invariant
                i <= p@.len(),
                i <= MAX_SLOT_ALTS,
                ar == self.ar,
                crate::order::stable_order(before, alts@.len() as int, p@),
                all == crate::order::listed(alts@, p@),
                forall|k: int| 0 <= k < alts@.len() ==> (#[trigger] alts@[k]).0 < n,
                list@.len() == i,
                forall|k: int|
                    0 <= k < i ==> #[trigger] list@[k] == (all[k].0, ar.ratio_spec(all[k].1, 1)),
                forall|k: int| 0 <= k < i ==> (#[trigger] list@[k]).0 < n,
            decreases p@.len() - i,
        {
            let (at, q, _): (usize, u64, Scalar) = alts[p[i]];
            list.push((at, ar.ratio(q, 1)));
            i += 1;
        }
        assert(list@ =~= crate::planner::beam::first_of(all, MAX_SLOT_ALTS as int).map_values(
            |x: (usize, u64, Scalar)| (x.0, self.ar.ratio_spec(x.1, 1)),
        ));
        LpInput::Choice { alts: list }
    }
}

impl<'a, A: Arithmetic> Exact<'a, A> {
    fn list_inputs(&self, b: &mut Building, rid: RecipeId) -> (r: (Vec<LpInput>, bool))
        requires
            self.ok(),
            old(b).inv(*self.g),
            self.kept(old(b)@),
            rid < self.g.r_count(),
        ensures
            final(b).inv(*self.g),
            self.kept(final(b)@),
            (Intake { part: final(b)@, inputs: feeds_of(r.0@), usable: r.1 }) == self.intake_to(
                old(b)@,
                self.g.recipes@[rid as int].inputs@,
                self.g.recipes@[rid as int].inputs@.len() as int,
            ),
            forall|i: int|
                0 <= i < r.0@.len() ==> feed_ok(
                    #[trigger] feeds_of(r.0@)[i],
                    final(b)@.materials.len() as int,
                ),
            final(b)@.materials.len() >= old(b)@.materials.len(),
            final(b)@.recipes == old(b)@.recipes,
            self.room(final(b)@) <= self.room(old(b)@),
            final(b)@.waiting == old(b)@.waiting || self.room(final(b)@) < self.room(old(b)@),
    {
        let ghost start = b@;
        let r = self.g.recipe(rid);
        let mut inputs: Vec<LpInput> = Vec::new();
        let mut usable = true;
        assert(feeds_of(inputs@) =~= Seq::empty());
        let mut s: usize = 0;
        while s < r.inputs.len()
            invariant
                s <= r.inputs@.len(),
                self.ok(),
                b.inv(*self.g),
                self.kept(b@),
                rid < self.g.r_count(),
                *r == self.g.recipes@[rid as int],
                (Intake { part: b@, inputs: feeds_of(inputs@), usable }) == self.intake_to(
                    start,
                    r.inputs@,
                    s as int,
                ),
                forall|i: int|
                    0 <= i < inputs@.len() ==> feed_ok(
                        #[trigger] feeds_of(inputs@)[i],
                        b@.materials.len() as int,
                    ),
                b@.materials.len() >= start.materials.len(),
                b@.recipes == start.recipes,
                self.room(b@) <= self.room(start),
                b@.waiting == start.waiting || self.room(b@) < self.room(start),
            decreases r.inputs@.len() - s,
        {
            if usable {
                assert(crate::graph::slots_ok(r.inputs@, self.g.m_count()));
                assert(crate::graph::slot_ok(r.inputs@[s as int], self.g.m_count()));
                let ghost had = feeds_of(inputs@);
                let ghost n0 = b@.materials.len() as int;
                let (alts, fits) = self.list_offer(b, &r.inputs[s]);
                let ghost n = b@.materials.len() as int;
                if fits && alts.len() > 0 {
                    let feed = self.make_feed(alts, Ghost(n));
                    let ghost shown = feed@;
                    inputs.push(feed);
                    assert(feeds_of(inputs@) =~= had.push(shown));
                } else {
                    usable = false;
                }
                assert forall|i: int| 0 <= i < inputs@.len() implies feed_ok(
                    #[trigger] feeds_of(inputs@)[i],
                    n,
                ) by {
                    if i < had.len() {
                        assert(feed_ok(had[i], n0));
                    }
                }
            }
            s += 1;
        }
        (inputs, usable)
    }

    fn list_outputs(&self, b: &mut Building, rid: RecipeId) -> (r: Vec<(usize, Scalar)>)
        requires
            self.ok(),
            old(b).inv(*self.g),
            self.kept(old(b)@),
            rid < self.g.r_count(),
        ensures
            final(b).inv(*self.g),
            self.kept(final(b)@),
            ({
                let out = self.output_to(
                    old(b)@,
                    rid,
                    self.g.recipes@[rid as int].outputs@.len() as int,
                );
                out.part == final(b)@ && out.outputs == r@
            }),
            forall|i: int|
                0 <= i < r@.len() ==> (#[trigger] r@[i]).0 < final(b)@.materials.len(),
            final(b)@.materials.len() >= old(b)@.materials.len(),
            final(b)@.recipes == old(b)@.recipes,
            self.room(final(b)@) <= self.room(old(b)@),
            final(b)@.waiting == old(b)@.waiting || self.room(final(b)@) < self.room(old(b)@),
    {
        let ghost start = b@;
        let r = self.g.recipe(rid);
        let mut outputs: Vec<(usize, Scalar)> = Vec::new();
        let mut stopped = false;
        let mut s: usize = 0;
        while s < r.outputs.len()
            invariant
                s <= r.outputs@.len(),
                self.ok(),
                b.inv(*self.g),
                self.kept(b@),
                rid < self.g.r_count(),
                *r == self.g.recipes@[rid as int],
                (Output { part: b@, outputs: outputs@, stopped }) == self.output_to(
                    start,
                    rid,
                    s as int,
                ),
                forall|i: int|
                    0 <= i < outputs@.len() ==> (#[trigger] outputs@[i]).0 < b@.materials.len(),
                b@.materials.len() >= start.materials.len(),
                b@.recipes == start.recipes,
                self.room(b@) <= self.room(start),
                b@.waiting == start.waiting || self.room(b@) < self.room(start),
            decreases r.outputs@.len() - s,
        {
            if let Some((m, q)) = r.outputs[s].primary() {
                if !stopped {
                    assert(crate::graph::slots_ok(r.outputs@, self.g.m_count()));
                    assert(crate::graph::slot_ok(r.outputs@[s as int], self.g.m_count()));
                    match self.add_material(b, m) {
                        Some(at) => {
                            let chance = self.g.output_chance(self.ar, rid, m);
                            outputs.push((at, self.ar.times(self.ar.ratio(q, 1), chance)));
                        },
                        None => {
                            stopped = true;
                        },
                    }
                }
            }
            s += 1;
        }
        outputs
    }

    /// Returns if no further recipe is looked at.
    fn add_recipe(&self, b: &mut Building, rid: RecipeId) -> (stops: bool)
        requires
            self.ok(),
            old(b).inv(*self.g),
            self.kept(old(b)@),
            rid < self.g.r_count(),
            self.usable(rid),
        ensures
            final(b).inv(*self.g),
            self.kept(final(b)@),
            final(b)@ == self.with_recipe(old(b)@, rid),
            stops == self.stops(old(b)@, rid),
            self.room(final(b)@) <= self.room(old(b)@),
            final(b)@.waiting == old(b)@.waiting || self.room(final(b)@) < self.room(old(b)@),
    {
        let ghost start = b@;
        let r = self.g.recipe(rid);
        assert(b.taken@[rid as int] == taken_in(b@.recipes, rid as int as u32));
        if b.taken[rid as usize] || r.inputs.len() == 0 || r.outputs.len() == 0 {
            return false;
        }
        if self.opts.block_amplification && self.is_on_cycle(rid) {
            let much = self.ar.plus(self.ar.ratio(1, 1), self.ar.ratio(1, 1_000_000_000));
            if self.ar.lt(much, self.recipe_gain(rid)) {
                b.skipped_amplifying = count_one(b.skipped_amplifying);
                return false;
            }
        }
        if b.recipes.len() >= self.opts.max_recipes {
            b.truncated = true;
            return true;
        }
        let (inputs, usable) = self.list_inputs(b, rid);
        if !usable {
            return false;
        }
        let ghost n0 = b@.materials.len() as int;
        let ghost feeds = feeds_of(inputs@);
        let outputs = self.list_outputs(b, rid);
        if outputs.len() == 0 {
            return false;
        }
        let ghost before = b@;
        let ghost e = Entry { rid, inputs: feeds, outputs: outputs@ };
        b.taken[rid as usize] = true;
        b.recipes.push(LpRecipe { rid, inputs, outputs });
        proof {
            assert(entries_of(b.recipes@) =~= before.recipes.push(e));
            let n = b@.materials.len() as int;
            assert(entry_ok(e, n, self.g.r_count())) by {
                assert forall|i: int| 0 <= i < feeds.len() implies feed_ok(
                    #[trigger] feeds[i],
                    n,
                ) by {
                    assert(feed_ok(feeds_of(inputs@)[i], n0));
                }
            }
            let all = b@.recipes;
            assert forall|i: int| 0 <= i < all.len() implies entry_ok(
                #[trigger] all[i],
                n,
                self.g.r_count(),
            ) by {
                if i < before.recipes.len() {
                    assert(entry_ok(before.recipes[i], n, self.g.r_count()));
                }
            }
            assert forall|x: int| 0 <= x < self.g.r_count() implies #[trigger] b.taken@[x]
                == taken_in(all, x as RecipeId) by {
                if taken_in(before.recipes, x as RecipeId) {
                    let i = choose|i: int|
                        0 <= i < before.recipes.len() && (#[trigger] before.recipes[i]).rid
                            == x as RecipeId;
                    assert(all[i].rid == x as RecipeId);
                }
                if x == rid {
                    assert(all[all.len() - 1].rid == x as RecipeId);
                }
                if taken_in(all, x as RecipeId) && x != rid {
                    let i = choose|i: int|
                        0 <= i < all.len() && (#[trigger] all[i]).rid == x as RecipeId;
                    assert(i < before.recipes.len());
                    assert(before.recipes[i].rid == x as RecipeId);
                }
            }
        }
        false
    }
}

pub(crate) proof fn producer_order_orders<A: Arithmetic>(ar: A, s: Seq<(Scalar, RecipeId)>)
    ensures
        crate::order::orders(producer_order(ar, s), s.len() as int),
{
    ar.total_before_orders();
    let lt = producer_order(ar, s);
    let n = s.len() as int;
    assert forall|i: int, j: int, k: int|
        0 <= i < n && 0 <= j < n && 0 <= k < n && #[trigger] lt(i, j) && #[trigger] lt(
            j,
            k,
        ) implies lt(i, k) by {
        let (a, b, c) = (s[i].0, s[j].0, s[k].0);
        if ar.total_before_spec(a, b) {
            assert(ar.total_before_spec(a, c) || ar.total_before_spec(c, b));
        } else if ar.total_before_spec(b, c) {
            assert(ar.total_before_spec(b, a) || ar.total_before_spec(a, c));
        } else if ar.total_before_spec(c, a) {
            assert(ar.total_before_spec(c, b) || ar.total_before_spec(b, a));
        }
    }
    assert forall|i: int, j: int, k: int|
        #![trigger lt(i, k), lt(i, j)]
        #![trigger lt(i, k), lt(j, k)]
        0 <= i < n && 0 <= j < n && 0 <= k < n && lt(i, k) implies lt(i, j) || lt(j, k) by {
        let (a, b, c) = (s[i].0, s[j].0, s[k].0);
        if ar.total_before_spec(a, c) {
            assert(ar.total_before_spec(a, b) || ar.total_before_spec(b, c));
        } else if !lt(i, j) && !lt(j, k) {
            if ar.total_before_spec(b, a) {
                assert(ar.total_before_spec(b, c) || ar.total_before_spec(c, a));
            }
            if ar.total_before_spec(c, b) {
                assert(ar.total_before_spec(c, a) || ar.total_before_spec(a, b));
            }
        }
    }
}

impl<'a, A: Arithmetic> Exact<'a, A> {
    fn list_producers(&self, skipped: usize, m: MaterialId) -> (r: (Vec<(Scalar, RecipeId)>, usize))
        requires
            self.ok(),
            m < self.g.m_count(),
        ensures
            r.0@ == self.chosen_producers(m),
            r.1 == self.producers_to(
                skipped,
                m,
                self.g.producers@[m as int]@.len() as int,
            ).skipped,
            forall|i: int|
                0 <= i < r.0@.len() ==> (#[trigger] r.0@[i]).1 < self.g.r_count() && self.usable(
                    r.0@[i].1,
                ),
    {
        let ar = self.ar;
        let prods = &self.g.producers[m as usize];
        let mut list: Vec<(Scalar, RecipeId)> = Vec::new();
        let mut count: usize = skipped;
        let mut i: usize = 0;
        while i < prods.len()
            invariant
                i <= prods@.len(),
                self.ok(),
                m < self.g.m_count(),
                prods@ == self.g.producers@[m as int]@,
                (Producers { list: list@, skipped: count }) == self.producers_to(
                    skipped,
                    m,
                    i as int,
                ),
                forall|k: int|
                    0 <= k < list@.len() ==> (#[trigger] list@[k]).1 < self.g.r_count()
                        && self.usable(list@[k].1),
            decreases prods@.len() - i,
        {
            let rid: u32 = prods[i];
            proof {
                let p = |r: int| self.g.produces(r, m as int as u32);
                assert(crate::graph::lists(self.g.producers@[m as int]@, self.g.r_count(), p));
            }
            if self.g.is_plannable(rid) {
                if self.does_recycle(rid) {
                    count = count_one(count);
                } else if tier_allowed(self.g, rid, self.opts.max_tier) {
                    list.push((self.producer_score(rid, m), rid));
                }
            }
            i += 1;
        }
        let ghost before = producer_order(*ar, list@);
        proof {
            self.producers_same(skipped, m, self.g.producers@[m as int]@.len() as int);
            producer_order_orders(*ar, list@);
        }
        let less = |i: usize, j: usize| -> (b: bool)
            requires
                i < list@.len() && j < list@.len(),
            ensures
                b == (ar.total_before_spec(list@[i as int].0, list@[j as int].0) || (
                !ar.total_before_spec(list@[j as int].0, list@[i as int].0) && list@[i as int].1
                    < list@[j as int].1)),
            {
                ar.total_before(list[i].0, list[j].0) || (!ar.total_before(list[j].0, list[i].0)
                    && list[i].1 < list[j].1)
            };
        let p = sort_positions(list.len(), less, Ghost(before));
        proof {
            crate::order::sorted_is(list@, before, p@);
        }
        let ghost all = crate::order::sorted(list@, before);
        let mut r: Vec<(Scalar, RecipeId)> = Vec::new();
        let mut i: usize = 0;
        while i < p.len() && i < MAX_PRODUCERS_PER_MATERIAL
            invariant
                i <= p@.len(),
                i <= MAX_PRODUCERS_PER_MATERIAL,
                crate::order::stable_order(before, list@.len() as int, p@),
                all == crate::order::listed(list@, p@),
                forall|k: int|
                    0 <= k < list@.len() ==> (#[trigger] list@[k]).1 < self.g.r_count()
                        && self.usable(list@[k].1),
                r@ == all.take(i as int),
                forall|k: int|
                    0 <= k < r@.len() ==> (#[trigger] r@[k]).1 < self.g.r_count() && self.usable(
                        r@[k].1,
                    ),
            decreases p@.len() - i,
        {
            r.push(list[p[i]]);
            i += 1;
            assert(r@ =~= all.take(i as int));
        }
        (r, count)
    }

    fn take_first(&self, b: &mut Building) -> (m: MaterialId)
        requires
            old(b).inv(*self.g),
            self.kept(old(b)@),
            old(b)@.waiting.len() > 0,
        ensures
            final(b).inv(*self.g),
            self.kept(final(b)@),
            m < self.g.m_count(),
            ({
                let at = first_to(old(b)@.waiting, old(b)@.waiting.len() as int);
                &&& m == old(b)@.waiting[at].1
                &&& final(b)@ == (Part { waiting: old(b)@.waiting.remove(at), ..old(b)@ })
            }),
            final(b)@.waiting.len() == old(b)@.waiting.len() - 1,
    {
        let mut best: usize = 0;
        let mut i: usize = 1;
        while i < b.waiting.len()
            invariant
                1 <= i <= b.waiting@.len(),
                best < b.waiting@.len(),
                best == first_to(b.waiting@, i as int),
            decreases b.waiting@.len() - i,
        {
            let (pa, ma): (u64, u32) = b.waiting[i];
            let (pb, mb): (u64, u32) = b.waiting[best];
            if pa < pb || (pa == pb && ma < mb) {
                best = i;
            }
            i += 1;
        }
        let ghost was = b.waiting@;
        assert(b@.waiting[best as int].1 < self.g.m_count());
        let (_, m): (u64, u32) = b.waiting.remove(best);
        assert forall|k: int| 0 <= k < b@.waiting.len() implies (#[trigger] b@.waiting[k]).1
            < self.g.m_count() by {
            if k < best {
                assert(b@.waiting[k] == was[k]);
            } else {
                assert(b@.waiting[k] == was[k + 1]);
            }
        }
        m
    }

    fn run_step(&self, b: &mut Building)
        requires
            self.ok(),
            old(b).inv(*self.g),
            self.kept(old(b)@),
            old(b)@.waiting.len() > 0,
        ensures
            final(b).inv(*self.g),
            self.kept(final(b)@),
            final(b)@ == self.step(old(b)@),
            self.room(final(b)@) < self.room(old(b)@) || (self.room(final(b)@) == self.room(
                old(b)@,
            ) && final(b)@.waiting.len() < old(b)@.waiting.len()),
    {
        let ghost start = b@;
        let m = self.take_first(b);
        let (list, count) = self.list_producers(b.skipped_recycling, m);
        b.skipped_recycling = count;
        let ghost from = b@;
        let ghost end = self.with_recipes(from, list@, 0);
        let mut i: usize = 0;
        while i < list.len()
            invariant_except_break
                self.with_recipes(b@, list@, i as nat) == end,
            invariant
                i <= list@.len(),
                self.ok(),
                b.inv(*self.g),
                self.kept(b@),
                forall|k: int|
                    0 <= k < list@.len() ==> (#[trigger] list@[k]).1 < self.g.r_count()
                        && self.usable(list@[k].1),
                self.room(b@) <= self.room(from),
                b@.waiting == from.waiting || self.room(b@) < self.room(from),
            ensures
                b@ == end,
            decreases list@.len() - i,
        {
            let (_, rid): (Scalar, u32) = list[i];
            if self.add_recipe(b, rid) {
                break;
            }
            i += 1;
        }
    }
}

/// A program for an exact plan.
pub struct LpModel {
    pub target: MaterialId,
    pub rate_per_min: Scalar,
    pub materials: Vec<MaterialId>,
    pub recipes: Vec<LpRecipe>,
    /// A limit was reached.
    pub truncated: bool,
    pub skipped_recycling: usize,
    pub skipped_amplifying: usize,
}

impl LpModel {
    /// The materials and recipes are those of the graph.
    pub open spec fn fits(self, g: KnowledgeGraph) -> bool {
        &&& self.target < g.m_count()
        &&& forall|i: int|
            0 <= i < self.materials@.len() ==> #[trigger] self.materials@[i] < g.m_count()
        &&& forall|i: int|
            0 <= i < self.recipes@.len() ==> entry_ok(
                #[trigger] entries_of(self.recipes@)[i],
                self.materials@.len() as int,
                g.r_count(),
            )
    }

    /// The program is made of a part of the graph.
    pub open spec fn shows(self, p: Part) -> bool {
        &&& self.materials@ == p.materials
        &&& entries_of(self.recipes@) == p.recipes
        &&& self.truncated == p.truncated
        &&& self.skipped_recycling == p.skipped_recycling
        &&& self.skipped_amplifying == p.skipped_amplifying
    }
}

impl<'a, A: Arithmetic> Exact<'a, A> {
    /// The program for the target, out of the part of the graph that matters for
    /// it.
    pub fn model(&self) -> (r: LpModel)
        requires
            self.ok(),
        ensures
            r.fits(*self.g),
            r.target == self.target,
            r.rate_per_min == self.rate_per_min,
            exists|p: Part| #[trigger] self.matters(p) && self.kept(p) && r.shows(p),
    {
        let mut b = Building {
            materials: Vec::new(),
            places: filled(self.g.materials.len(), None),
            waiting: Vec::new(),
            recipes: Vec::new(),
            taken: filled(self.g.recipes.len(), false),
            truncated: false,
            skipped_recycling: 0,
            skipped_amplifying: 0,
        };
        b.materials.push(self.target);
        b.places[self.target as usize] = Some(0);
        b.waiting.push((self.heap_prio(self.target), self.target));
        let ghost start = self.start();
        proof {
            assert(entries_of(b.recipes@) =~= Seq::empty());
            assert(b.materials@ =~= start.materials);
            assert(b.waiting@ =~= start.waiting);
            assert(b@ == start);
            assert(b.inv(*self.g)) by {
                assert(start.materials.drop_last() =~= Seq::empty());
                assert forall|m: int| 0 <= m < self.g.m_count() implies #[trigger] b.places@[m]
                    == crate::list::place(b.materials@, m as MaterialId) by {
                    reveal_with_fuel(crate::list::place, 2);
                    if m != self.target {
                        assert(m as MaterialId != self.target);
                    }
                }
            }
        }
        let ghost mut k: nat = 0;
        while b.waiting.len() > 0 && !(b.truncated && b.recipes.len() >= self.opts.max_recipes)
            invariant
                self.ok(),
                b.inv(*self.g),
                self.kept(b@),
                start == self.start(),
                b@ == self.after(start, k),
            decreases self.room(b@), b@.waiting.len(),
        {
            assert(entries_of(b.recipes@).len() == b.recipes@.len());
            proof {
                self.after_step(start, k);
                k = k + 1;
            }
            self.run_step(&mut b);
        }
        assert(entries_of(b.recipes@).len() == b.recipes@.len());
        let ghost p = b@;
        assert(self.matters(p));
        let r = LpModel {
            target: self.target,
            rate_per_min: self.rate_per_min,
            materials: b.materials,
            recipes: b.recipes,
            truncated: b.truncated,
            skipped_recycling: b.skipped_recycling,
            skipped_amplifying: b.skipped_amplifying,
        };
        assert(r.shows(p));
        r
    }
}

/// A variable of a program.
#[derive(Clone, Copy, Debug, PartialEq, Eq, Structural)]
pub enum LpVar {
    /// Operations of a recipe.
    Ops(usize),
    /// What comes of a material from outside.
    Ext(usize),
    /// How much a candidate fills of an input slot of a recipe.
    Fill { recipe: usize, slot: usize, alt: usize },
}

/// A condition of a program: the terms add up to the right side, or to no less.
pub struct LpConstraint {
    pub terms: Vec<(LpVar, Scalar)>,
    /// The sum is the right side.
    pub exact: bool,
    pub rhs: Scalar,
}

/// A program: least sum of the objective under the conditions; no variable is
/// negative.
pub struct LinearProgram {
    pub objective: Vec<(LpVar, Scalar)>,
    pub constraints: Vec<LpConstraint>,
}

/// A condition, for contracts.
pub struct Condition {
    pub terms: Seq<(LpVar, Scalar)>,
    pub exact: bool,
    pub rhs: Scalar,
}

impl View for LpConstraint {
    type V = Condition;

    open spec fn view(&self) -> Condition {
        Condition { terms: self.terms@, exact: self.exact, rhs: self.rhs }
    }
}

/// Conditions of a program.
pub open spec fn conditions_of(v: Seq<LpConstraint>) -> Seq<Condition> {
    v.map_values(|c: LpConstraint| c@)
}

impl<'a, A: Arithmetic> Exact<'a, A> {
    /// What a unit of a material costs that comes from outside; materials that
    /// can be made cost a thousand times as much.
    pub open spec fn import_price(self, m: MaterialId) -> Scalar {
        let base = self.ar.times_spec(
            self.an.cost.weights.material,
            if self.g.source_spec(m) {
                self.ar.ratio_spec(1, 1)
            } else {
                self.ar.ratio_spec(1000, 1)
            },
        );
        if self.g.materials@[m as int].key.kind is Fluid {
            self.ar.times_spec(base, self.ar.ratio_spec(1, 1000))
        } else {
            base
        }
    }

    /// What an operation costs: energy, machine time, and the penalty.
    pub open spec fn op_price(self, rid: RecipeId) -> Scalar {
        let zero = self.ar.ratio_spec(0, 1);
        let (eu, machine) = match self.g.recipes@[rid as int].gt {
            Some(gt) => (
                if gt.consumes_spec() {
                    gt.total_eu
                } else {
                    zero
                },
                self.ar.over_spec(
                    self.ar.ratio_spec(gt.duration_ticks as u64, 1),
                    self.ar.ratio_spec(1200, 1),
                ),
            ),
            None => (zero, zero),
        };
        self.ar.plus_spec(
            self.ar.plus_spec(
                self.ar.times_spec(self.an.cost.weights.eu, eu),
                self.ar.times_spec(self.an.cost.weights.machine, machine),
            ),
            self.opts.ops_penalty,
        )
    }

    /// The objective: prices of what comes from outside, and of operations.
    pub open spec fn objective(self, materials: Seq<MaterialId>, recipes: Seq<Entry>) -> Seq<
        (LpVar, Scalar),
    > {
        Seq::new(
            materials.len(),
            |i: int| (LpVar::Ext(i as usize), self.import_price(materials[i])),
        ) + Seq::new(
            recipes.len(),
            |r: int| (LpVar::Ops(r as usize), self.op_price(recipes[r].rid)),
        )
    }

    /// What the first `k` outputs give of material `i`.
    pub open spec fn made_to(self, outputs: Seq<(usize, Scalar)>, i: int, k: int) -> Scalar
        decreases k,
    {
        if k <= 0 {
            self.ar.ratio_spec(0, 1)
        } else if outputs[k - 1].0 == i {
            self.ar.plus_spec(self.made_to(outputs, i, k - 1), outputs[k - 1].1)
        } else {
            self.made_to(outputs, i, k - 1)
        }
    }

    /// The same, less what the first `k` slots without a choice take.
    pub open spec fn net_to(self, e: Entry, i: int, k: int) -> Scalar
        decreases k,
    {
        if k <= 0 {
            self.made_to(e.outputs, i, e.outputs.len() as int)
        } else {
            let rest = self.net_to(e, i, k - 1);
            match e.inputs[k - 1] {
                Feed::Direct { material, qty } if material == i => self.ar.minus_spec(rest, qty),
                _ => rest,
            }
        }
    }

    /// What an operation of a recipe adds to material `i`.
    pub open spec fn net(self, e: Entry, i: int) -> Scalar {
        self.net_to(e, i, e.inputs.len() as int)
    }

    /// The terms of the first `r` recipes in the balance of material `i`; those of
    /// nearly nothing are left out.
    pub open spec fn op_terms_to(self, recipes: Seq<Entry>, i: int, r: int) -> Seq<(LpVar, Scalar)>
        decreases r,
    {
        if r <= 0 {
            Seq::empty()
        } else {
            let rest = self.op_terms_to(recipes, i, r - 1);
            let c = self.net(recipes[r - 1], i);
            if self.ar.lt_spec(crate::planner::tree::eps(*self.ar), self.ar.abs_spec(c)) {
                rest.push((LpVar::Ops((r - 1) as usize), c))
            } else {
                rest
            }
        }
    }

    /// The terms of the first `a` candidates of a slot in the balance of `i`.
    pub open spec fn alt_terms_to(
        self,
        alts: Seq<(usize, Scalar)>,
        i: int,
        recipe: usize,
        slot: usize,
        a: int,
    ) -> Seq<(LpVar, Scalar)>
        decreases a,
    {
        if a <= 0 {
            Seq::empty()
        } else {
            let rest = self.alt_terms_to(alts, i, recipe, slot, a - 1);
            if alts[a - 1].0 == i {
                rest.push(
                    (
                        LpVar::Fill { recipe, slot, alt: (a - 1) as usize },
                        self.ar.minus_spec(self.ar.ratio_spec(0, 1), alts[a - 1].1),
                    ),
                )
            } else {
                rest
            }
        }
    }

    /// The terms of the first `s` slots of a recipe in the balance of `i`.
    pub open spec fn slot_terms_to(self, e: Entry, i: int, recipe: usize, s: int) -> Seq<
        (LpVar, Scalar),
    >
        decreases s,
    {
        if s <= 0 {
            Seq::empty()
        } else {
            let rest = self.slot_terms_to(e, i, recipe, s - 1);
            match e.inputs[s - 1] {
                Feed::Choice { alts } => rest + self.alt_terms_to(
                    alts,
                    i,
                    recipe,
                    (s - 1) as usize,
                    alts.len() as int,
                ),
                _ => rest,
            }
        }
    }

    /// The terms of the choices of the first `r` recipes in the balance of `i`.
    pub open spec fn fill_terms_to(self, recipes: Seq<Entry>, i: int, r: int) -> Seq<(LpVar, Scalar)>
        decreases r,
    {
        if r <= 0 {
            Seq::empty()
        } else {
            self.fill_terms_to(recipes, i, r - 1) + self.slot_terms_to(
                recipes[r - 1],
                i,
                (r - 1) as usize,
                recipes[r - 1].inputs.len() as int,
            )
        }
    }

    /// What is asked for of a material.
    pub open spec fn asked(self, m: MaterialId) -> Scalar {
        if m == self.target {
            self.rate_per_min
        } else {
            self.ar.ratio_spec(0, 1)
        }
    }

    /// The balance of material `i`.
    pub open spec fn balance(self, materials: Seq<MaterialId>, recipes: Seq<Entry>, i: int) -> Condition {
        Condition {
            terms: (self.op_terms_to(recipes, i, recipes.len() as int) + self.fill_terms_to(
                recipes,
                i,
                recipes.len() as int,
            )).push((LpVar::Ext(i as usize), self.ar.ratio_spec(1, 1))),
            exact: false,
            rhs: self.asked(materials[i]),
        }
    }

    /// What fills a slot adds up to the operations of its recipe.
    pub open spec fn filling(self, alts: Seq<(usize, Scalar)>, recipe: usize, slot: usize) -> Condition {
        Condition {
            terms: Seq::new(
                alts.len(),
                |a: int|
                    (
                        LpVar::Fill { recipe, slot, alt: a as usize },
                        self.ar.ratio_spec(1, 1),
                    ),
            ).push(
                (
                    LpVar::Ops(recipe),
                    self.ar.minus_spec(self.ar.ratio_spec(0, 1), self.ar.ratio_spec(1, 1)),
                ),
            ),
            exact: true,
            rhs: self.ar.ratio_spec(0, 1),
        }
    }

    /// The fillings of the first `s` slots of a recipe.
    pub open spec fn slot_fillings_to(self, e: Entry, recipe: usize, s: int) -> Seq<Condition>
        decreases s,
    {
        if s <= 0 {
            Seq::empty()
        } else {
            let rest = self.slot_fillings_to(e, recipe, s - 1);
            match e.inputs[s - 1] {
                Feed::Choice { alts } => rest.push(
                    self.filling(alts, recipe, (s - 1) as usize),
                ),
                _ => rest,
            }
        }
    }

    /// The fillings of the first `r` recipes.
    pub open spec fn fillings_to(self, recipes: Seq<Entry>, r: int) -> Seq<Condition>
        decreases r,
    {
        if r <= 0 {
            Seq::empty()
        } else {
            self.fillings_to(recipes, r - 1) + self.slot_fillings_to(
                recipes[r - 1],
                (r - 1) as usize,
                recipes[r - 1].inputs.len() as int,
            )
        }
    }

    /// The conditions: the balances, then the fillings.
    pub open spec fn conditions(self, materials: Seq<MaterialId>, recipes: Seq<Entry>) -> Seq<Condition> {
        Seq::new(materials.len(), |i: int| self.balance(materials, recipes, i)) + self.fillings_to(
            recipes,
            recipes.len() as int,
        )
    }
}

impl<'a, A: Arithmetic> Exact<'a, A> {
    fn price_import(&self, m: MaterialId) -> (r: Scalar)
        requires
            self.ok(),
            m < self.g.m_count(),
        ensures
            r == self.import_price(m),
    {
        let base = self.ar.times(
            self.an.cost.weights.material,
            if self.g.is_source(m) {
                self.ar.ratio(1, 1)
            } else {
                self.ar.ratio(1000, 1)
            },
        );
        match self.g.material(m).key.kind {
            MaterialKind::Fluid => self.ar.times(base, self.ar.ratio(1, 1000)),
            _ => base,
        }
    }

    fn price_op(&self, rid: RecipeId) -> (r: Scalar)
        requires
            self.ok(),
            rid < self.g.r_count(),
        ensures
            r == self.op_price(rid),
    {
        let zero = self.ar.ratio(0, 1);
        let (eu, machine) = match &self.g.recipe(rid).gt {
            Some(gt) => (
                if gt.consumes_energy() {
                    gt.total_eu
                } else {
                    zero
                },
                self.ar.over(self.ar.ratio(gt.duration_ticks as u64, 1), self.ar.ratio(1200, 1)),
            ),
            None => (zero, zero),
        };
        self.ar.plus(
            self.ar.plus(
                self.ar.times(self.an.cost.weights.eu, eu),
                self.ar.times(self.an.cost.weights.machine, machine),
            ),
            self.opts.ops_penalty,
        )
    }

    fn list_objective(&self, model: &LpModel) -> (r: Vec<(LpVar, Scalar)>)
        requires
            self.ok(),
            model.fits(*self.g),
        ensures
            r@ == self.objective(model.materials@, entries_of(model.recipes@)),
    {
        let ghost recipes = entries_of(model.recipes@);
        let ghost all = self.objective(model.materials@, recipes);
        let mut r: Vec<(LpVar, Scalar)> = Vec::new();
        let mut i: usize = 0;
        while i < model.materials.len()
            invariant
                i <= model.materials@.len(),
                self.ok(),
                model.fits(*self.g),
                recipes == entries_of(model.recipes@),
                all == self.objective(model.materials@, recipes),
                r@ == all.take(i as int),
            decreases model.materials@.len() - i,
        {
            r.push((LpVar::Ext(i), self.price_import(model.materials[i])));
            i += 1;
            assert(r@ =~= all.take(i as int));
        }
        let mut k: usize = 0;
        while k < model.recipes.len()
            invariant
                k <= model.recipes@.len(),
                self.ok(),
                model.fits(*self.g),
                recipes == entries_of(model.recipes@),
                all == self.objective(model.materials@, recipes),
                r@ == all.take(model.materials@.len() + k),
            decreases model.recipes@.len() - k,
        {
            let rid: u32 = model.recipes[k].rid;
            assert(entry_ok(recipes[k as int], model.materials@.len() as int, self.g.r_count()));
            r.push((LpVar::Ops(k), self.price_op(rid)));
            k += 1;
            assert(r@ =~= all.take(model.materials@.len() + k));
        }
        assert(r@ =~= all);
        r
    }

    fn count_net(&self, e: &LpRecipe, i: usize) -> (r: Scalar)
        ensures
            r == self.net(e@, i as int),
    {
        let mut c = self.ar.ratio(0, 1);
        let mut k: usize = 0;
        while k < e.outputs.len()
            invariant
                k <= e.outputs@.len(),
                c == self.made_to(e.outputs@, i as int, k as int),
            decreases e.outputs@.len() - k,
        {
            let (at, q): (usize, Scalar) = e.outputs[k];
            if at == i {
                c = self.ar.plus(c, q);
            }
            k += 1;
        }
        let mut k: usize = 0;
        while k < e.inputs.len()
            invariant
                k <= e.inputs@.len(),
                c == self.net_to(e@, i as int, k as int),
            decreases e.inputs@.len() - k,
        {
            assert(e@.inputs[k as int] == e.inputs@[k as int]@);
            match &e.inputs[k] {
                LpInput::Direct { material, qty } => {
                    if *material == i {
                        c = self.ar.minus(c, *qty);
                    }
                },
                LpInput::Choice { .. } => {},
            }
            k += 1;
        }
        c
    }

    fn add_alt_terms(
        &self,
        terms: &mut Vec<(LpVar, Scalar)>,
        alts: &Vec<(usize, Scalar)>,
        i: usize,
        recipe: usize,
        slot: usize,
    )
        ensures
            final(terms)@ == old(terms)@ + self.alt_terms_to(
                alts@,
                i as int,
                recipe,
                slot,
                alts@.len() as int,
            ),
    {
        let ghost start = terms@;
        let mut a: usize = 0;
        assert(terms@ =~= start + self.alt_terms_to(alts@, i as int, recipe, slot, 0));
        while a < alts.len()
            invariant
                a <= alts@.len(),
                terms@ == start + self.alt_terms_to(alts@, i as int, recipe, slot, a as int),
            decreases alts@.len() - a,
        {
            let ghost before = self.alt_terms_to(alts@, i as int, recipe, slot, a as int);
            let (at, q): (usize, Scalar) = alts[a];
            if at == i {
                let c = self.ar.minus(self.ar.ratio(0, 1), q);
                terms.push((LpVar::Fill { recipe, slot, alt: a }, c));
                assert(terms@ =~= start + before.push((LpVar::Fill { recipe, slot, alt: a }, c)));
            }
            a += 1;
        }
    }

    fn make_balance(&self, model: &LpModel, i: usize) -> (r: LpConstraint)
        requires
            i < model.materials@.len(),
            model.target == self.target,
            model.rate_per_min == self.rate_per_min,
        ensures
            r@ == self.balance(model.materials@, entries_of(model.recipes@), i as int),
    {
        let ghost recipes = entries_of(model.recipes@);
        let n: usize = model.recipes.len();
        let eps = self.ar.ratio(1, 1_000_000_000);
        let mut terms: Vec<(LpVar, Scalar)> = Vec::new();
        let mut r: usize = 0;
        while r < n
            invariant
                r <= n,
                n == model.recipes@.len(),
                recipes == entries_of(model.recipes@),
                eps == crate::planner::tree::eps(*self.ar),
                terms@ == self.op_terms_to(recipes, i as int, r as int),
            decreases n - r,
        {
            assert(recipes[r as int] == model.recipes@[r as int]@);
            let c = self.count_net(&model.recipes[r], i);
            if self.ar.lt(eps, self.ar.abs(c)) {
                terms.push((LpVar::Ops(r), c));
            }
            r += 1;
        }
        let ghost ops = terms@;
        let mut r: usize = 0;
        assert(terms@ =~= ops + self.fill_terms_to(recipes, i as int, 0));
        while r < n
            invariant
                r <= n,
                n == model.recipes@.len(),
                recipes == entries_of(model.recipes@),
                terms@ == ops + self.fill_terms_to(recipes, i as int, r as int),
            decreases n - r,
        {
            let e = &model.recipes[r];
            let ghost shown = recipes[r as int];
            assert(shown == e@);
            let ghost had = terms@;
            let mut s: usize = 0;
            assert(terms@ =~= had + self.slot_terms_to(shown, i as int, r, 0));
            while s < e.inputs.len()
                invariant
                    s <= e.inputs@.len(),
                    shown == e@,
                    terms@ == had + self.slot_terms_to(shown, i as int, r, s as int),
                decreases e.inputs@.len() - s,
            {
                assert(shown.inputs[s as int] == e.inputs@[s as int]@);
                let ghost before = self.slot_terms_to(shown, i as int, r, s as int);
                match &e.inputs[s] {
                    LpInput::Choice { alts } => {
                        self.add_alt_terms(&mut terms, alts, i, r, s);
                        assert(terms@ =~= had + (before + self.alt_terms_to(
                            alts@,
                            i as int,
                            r,
                            s,
                            alts@.len() as int,
                        )));
                    },
                    LpInput::Direct { .. } => {},
                }
                s += 1;
            }
            assert(terms@ =~= ops + self.fill_terms_to(recipes, i as int, r + 1));
            r += 1;
        }
        terms.push((LpVar::Ext(i), self.ar.ratio(1, 1)));
        let rhs = if model.materials[i] == self.target {
            self.rate_per_min
        } else {
            self.ar.ratio(0, 1)
        };
        LpConstraint { terms, exact: false, rhs }
    }

    fn make_filling(&self, alts: &Vec<(usize, Scalar)>, recipe: usize, slot: usize) -> (r:
        LpConstraint)
        ensures
            r@ == self.filling(alts@, recipe, slot),
    {
        let one = self.ar.ratio(1, 1);
        let zero = self.ar.ratio(0, 1);
        let mut terms: Vec<(LpVar, Scalar)> = Vec::new();
        let mut a: usize = 0;
        while a < alts.len()
            invariant
                a <= alts@.len(),
                one == self.ar.ratio_spec(1, 1),
                terms@.len() == a,
                forall|k: int|
                    0 <= k < a ==> #[trigger] terms@[k] == (
                        LpVar::Fill { recipe, slot, alt: k as usize },
                        one,
                    ),
            decreases alts@.len() - a,
        {
            terms.push((LpVar::Fill { recipe, slot, alt: a }, one));
            a += 1;
        }
        terms.push((LpVar::Ops(recipe), self.ar.minus(zero, one)));
        let r = LpConstraint { terms, exact: true, rhs: zero };
        assert(r@.terms =~= self.filling(alts@, recipe, slot).terms);
        r
    }

    /// The program to solve.
    pub fn program(&self, model: &LpModel) -> (r: LinearProgram)
        requires
            self.ok(),
            model.fits(*self.g),
            model.target == self.target,
            model.rate_per_min == self.rate_per_min,
        ensures
            r.objective@ == self.objective(model.materials@, entries_of(model.recipes@)),
            conditions_of(r.constraints@) == self.conditions(
                model.materials@,
                entries_of(model.recipes@),
            ),
    {
        let ghost recipes = entries_of(model.recipes@);
        let objective = self.list_objective(model);
        let mut constraints: Vec<LpConstraint> = Vec::new();
        let ghost balances = Seq::new(
            model.materials@.len(),
            |i: int| self.balance(model.materials@, recipes, i),
        );
        assert(conditions_of(constraints@) =~= balances.take(0));
        let mut i: usize = 0;
        while i < model.materials.len()
            invariant
                i <= model.materials@.len(),
                model.target == self.target,
                model.rate_per_min == self.rate_per_min,
                recipes == entries_of(model.recipes@),
                balances == Seq::new(
                    model.materials@.len(),
                    |i: int| self.balance(model.materials@, recipes, i),
                ),
                conditions_of(constraints@) == balances.take(i as int),
            decreases model.materials@.len() - i,
        {
            let ghost had = conditions_of(constraints@);
            let c = self.make_balance(model, i);
            let ghost shown = c@;
            constraints.push(c);
            assert(conditions_of(constraints@) =~= had.push(shown));
            i += 1;
            assert(conditions_of(constraints@) =~= balances.take(i as int));
        }
        assert(balances.take(balances.len() as int) =~= balances);
        let mut r: usize = 0;
        assert(conditions_of(constraints@) =~= balances + self.fillings_to(recipes, 0));
        while r < model.recipes.len()
            invariant
                r <= model.recipes@.len(),
                recipes == entries_of(model.recipes@),
                conditions_of(constraints@) == balances + self.fillings_to(recipes, r as int),
            decreases model.recipes@.len() - r,
        {
            let e = &model.recipes[r];
            let ghost shown = recipes[r as int];
            assert(shown == e@);
            let ghost had = conditions_of(constraints@);
            let mut s: usize = 0;
            assert(had =~= had + self.slot_fillings_to(shown, r, 0));
            while s < e.inputs.len()
                invariant
                    s <= e.inputs@.len(),
                    shown == e@,
                    conditions_of(constraints@) == had + self.slot_fillings_to(
                        shown,
                        r,
                        s as int,
                    ),
                decreases e.inputs@.len() - s,
            {
                assert(shown.inputs[s as int] == e.inputs@[s as int]@);
                match &e.inputs[s] {
                    LpInput::Choice { alts } => {
                        let ghost before = conditions_of(constraints@);
                        let c = self.make_filling(alts, r, s);
                        let ghost filling = c@;
                        constraints.push(c);
                        assert(conditions_of(constraints@) =~= before.push(filling));
                        assert(conditions_of(constraints@) =~= had + self.slot_fillings_to(
                            shown,
                            r,
                            s as int,
                        ).push(filling));
                    },
                    LpInput::Direct { .. } => {},
                }
                s += 1;
            }
            assert(conditions_of(constraints@) =~= balances + self.fillings_to(recipes, r + 1));
            r += 1;
        }
        LinearProgram { objective, constraints }
    }
}

/// The solution of a program.
pub struct LpSolution {
    /// Operations of each recipe.
    pub ops: Vec<Scalar>,
    /// What comes of each material from outside.
    pub ext: Vec<Scalar>,
    /// For each recipe and slot how much each candidate fills.
    pub fills: Vec<Vec<Vec<Scalar>>>,
    pub objective: Scalar,
    /// What the solver says of the solution.
    pub status: String,
}

impl LpSolution {
    /// There is a value for each variable of the program.
    pub open spec fn fits(self, model: LpModel) -> bool {
        &&& self.ops@.len() == model.recipes@.len()
        &&& self.ext@.len() == model.materials@.len()
        &&& self.fills@.len() == model.recipes@.len()
        &&& forall|r: int|
            0 <= r < model.recipes@.len() ==> (#[trigger] self.fills@[r])@.len()
                == model.recipes@[r].inputs@.len()
        &&& forall|r: int, s: int|
            #![trigger self.fills@[r]@[s]]
            0 <= r < model.recipes@.len() && 0 <= s < self.fills@[r]@.len() ==> (
            model.recipes@[r].inputs@[s] matches LpInput::Choice { alts } ==> self.fills@[r]@[s]@.len()
                == alts@.len())
    }
}

/// The candidates that the first `s` slots of a recipe choose among.
pub open spec fn alt_count_to(e: Entry, s: int) -> usize
    decreases s,
{
    if s <= 0 {
        0
    } else {
        match e.inputs[s - 1] {
            Feed::Choice { alts } => crate::list::capped(alt_count_to(e, s - 1), alts.len() as usize),
            _ => alt_count_to(e, s - 1),
        }
    }
}

/// The choices of the first `s` slots of a recipe.
pub open spec fn choice_count_to(e: Entry, s: int) -> usize
    decreases s,
{
    if s <= 0 {
        0
    } else {
        match e.inputs[s - 1] {
            Feed::Choice { alts } => crate::list::capped(choice_count_to(e, s - 1), 1),
            _ => choice_count_to(e, s - 1),
        }
    }
}

/// Candidates and choices of the first `r` recipes.
pub open spec fn counts_to(recipes: Seq<Entry>, r: int) -> (usize, usize)
    decreases r,
{
    if r <= 0 {
        (0, 0)
    } else {
        let before = counts_to(recipes, r - 1);
        let e = recipes[r - 1];
        (
            crate::list::capped(before.0, alt_count_to(e, e.inputs.len() as int)),
            crate::list::capped(before.1, choice_count_to(e, e.inputs.len() as int)),
        )
    }
}

/// A recipe has a choice in its first `s` slots.
pub open spec fn chooses_to(e: Entry, s: int) -> bool
    decreases s,
{
    s > 0 && (chooses_to(e, s - 1) || e.inputs[s - 1] is Choice)
}

/// The materials of a table are those of a map.
pub open spec fn alike(
    table: Map<RecipeId, Vec<MaterialId>>,
    map: Map<RecipeId, Seq<MaterialId>>,
) -> bool {
    &&& table.dom() == map.dom()
    &&& forall|r: RecipeId| map.contains_key(r) ==> (#[trigger] table[r])@ == map[r]
}

impl<'a, A: Arithmetic> Exact<'a, A> {
    /// The recipes among the first `r` that are used.
    pub open spec fn used_ops_to(self, recipes: Seq<Entry>, ops: Seq<Scalar>, r: int) -> Seq<
        (RecipeId, Scalar),
    >
        decreases r,
    {
        if r <= 0 {
            Seq::empty()
        } else if self.ar.lt_spec(crate::planner::tree::eps(*self.ar), ops[r - 1]) {
            self.used_ops_to(recipes, ops, r - 1).push((recipes[r - 1].rid, ops[r - 1]))
        } else {
            self.used_ops_to(recipes, ops, r - 1)
        }
    }

    /// The materials among the first `i` that come from outside.
    pub open spec fn used_raw_to(
        self,
        materials: Seq<MaterialId>,
        ext: Seq<Scalar>,
        i: int,
    ) -> Seq<(MaterialId, Scalar)>
        decreases i,
    {
        if i <= 0 {
            Seq::empty()
        } else if self.ar.lt_spec(crate::planner::tree::eps(*self.ar), ext[i - 1]) {
            self.used_raw_to(materials, ext, i - 1).push((materials[i - 1], ext[i - 1]))
        } else {
            self.used_raw_to(materials, ext, i - 1)
        }
    }

    /// The greatest of the first `a` values and its position.
    pub open spec fn greatest_to(self, values: Seq<Scalar>, a: int) -> (Scalar, int)
        decreases a,
    {
        if a <= 0 {
            (self.ar.ratio_spec(0, 1), 0)
        } else {
            let best = self.greatest_to(values, a - 1);
            if self.ar.lt_spec(best.0, values[a - 1]) {
                (values[a - 1], a - 1)
            } else {
                best
            }
        }
    }

    /// What fills most of each of the first `s` slots.
    pub open spec fn picks_to(
        self,
        materials: Seq<MaterialId>,
        e: Entry,
        fills: Seq<Vec<Scalar>>,
        s: int,
    ) -> Seq<MaterialId>
        decreases s,
    {
        if s <= 0 {
            Seq::empty()
        } else {
            self.picks_to(materials, e, fills, s - 1).push(
                match e.inputs[s - 1] {
                    Feed::Direct { material, qty } => materials[material as int],
                    Feed::Choice { alts } => materials[alts[self.greatest_to(
                        fills[s - 1]@,
                        alts.len() as int,
                    ).1].0 as int],
                },
            )
        }
    }

    /// For those of the first `r` recipes that have a choice, what fills most of
    /// each slot.
    pub open spec fn chosen_to(
        self,
        materials: Seq<MaterialId>,
        recipes: Seq<Entry>,
        x: LpSolution,
        r: int,
    ) -> Map<RecipeId, Seq<MaterialId>>
        decreases r,
    {
        if r <= 0 {
            Map::empty()
        } else {
            let before = self.chosen_to(materials, recipes, x, r - 1);
            let e = recipes[r - 1];
            if chooses_to(e, e.inputs.len() as int) {
                before.insert(
                    e.rid,
                    self.picks_to(materials, e, x.fills@[r - 1]@, e.inputs.len() as int),
                )
            } else {
                before
            }
        }
    }

    /// More of the material at a place.
    pub open spec fn add_at(self, v: Seq<Scalar>, at: usize, q: Scalar) -> Seq<Scalar> {
        v.update(at as int, self.ar.plus_spec(v[at as int], q))
    }

    /// After the first `k` outputs of a recipe.
    pub open spec fn made_with(
        self,
        v: Seq<Scalar>,
        outputs: Seq<(usize, Scalar)>,
        op: Scalar,
        k: int,
    ) -> Seq<Scalar>
        decreases k,
    {
        if k <= 0 {
            v
        } else {
            self.add_at(
                self.made_with(v, outputs, op, k - 1),
                outputs[k - 1].0,
                self.ar.times_spec(op, outputs[k - 1].1),
            )
        }
    }

    /// After the first `a` candidates of a slot.
    pub open spec fn filled_with(
        self,
        v: Seq<Scalar>,
        alts: Seq<(usize, Scalar)>,
        fills: Seq<Scalar>,
        a: int,
    ) -> Seq<Scalar>
        decreases a,
    {
        if a <= 0 {
            v
        } else {
            self.add_at(
                self.filled_with(v, alts, fills, a - 1),
                alts[a - 1].0,
                self.ar.times_spec(fills[a - 1], alts[a - 1].1),
            )
        }
    }

    /// After the first `s` slots of a recipe.
    pub open spec fn taken_with(
        self,
        v: Seq<Scalar>,
        e: Entry,
        op: Scalar,
        fills: Seq<Vec<Scalar>>,
        s: int,
    ) -> Seq<Scalar>
        decreases s,
    {
        if s <= 0 {
            v
        } else {
            let before = self.taken_with(v, e, op, fills, s - 1);
            match e.inputs[s - 1] {
                Feed::Direct { material, qty } => self.add_at(
                    before,
                    material,
                    self.ar.times_spec(op, qty),
                ),
                Feed::Choice { alts } => self.filled_with(
                    before,
                    alts,
                    fills[s - 1]@,
                    alts.len() as int,
                ),
            }
        }
    }

    /// What the first `r` recipes make and use of each of `n` materials.
    pub open spec fn flows_to(self, recipes: Seq<Entry>, x: LpSolution, n: nat, r: int) -> (
        Seq<Scalar>,
        Seq<Scalar>,
    )
        decreases r,
    {
        if r <= 0 {
            let none = Seq::new(n, |i: int| self.ar.ratio_spec(0, 1));
            (none, none)
        } else {
            let before = self.flows_to(recipes, x, n, r - 1);
            let e = recipes[r - 1];
            let op = x.ops@[r - 1];
            if self.ar.le_spec(op, crate::planner::tree::eps(*self.ar)) {
                before
            } else {
                (
                    self.made_with(before.0, e.outputs, op, e.outputs.len() as int),
                    self.taken_with(
                        before.1,
                        e,
                        op,
                        x.fills@[r - 1]@,
                        e.inputs.len() as int,
                    ),
                )
            }
        }
    }

    /// What is left over of the first `i` materials.
    pub open spec fn left_to(
        self,
        materials: Seq<MaterialId>,
        flows: (Seq<Scalar>, Seq<Scalar>),
        i: int,
    ) -> Seq<(MaterialId, Scalar)>
        decreases i,
    {
        if i <= 0 {
            Seq::empty()
        } else {
            let rest = self.left_to(materials, flows, i - 1);
            let m = materials[i - 1];
            let surplus = self.ar.minus_spec(
                self.ar.minus_spec(flows.0[i - 1], flows.1[i - 1]),
                self.asked(m),
            );
            if self.ar.lt_spec(self.ar.ratio_spec(1, 1_000_000), surplus) {
                rest.push((m, surplus))
            } else {
                rest
            }
        }
    }

    /// How many of the first `k` operations lie on a cycle.
    pub open spec fn cyclic_to(self, ops: Seq<(RecipeId, Scalar)>, k: int) -> nat
        decreases k,
    {
        if k <= 0 {
            0
        } else if self.on_cycle(ops[k - 1].0) {
            self.cyclic_to(ops, k - 1) + 1
        } else {
            self.cyclic_to(ops, k - 1)
        }
    }
}

impl<'a, A: Arithmetic> Exact<'a, A> {
    fn list_ops(&self, model: &LpModel, x: &LpSolution) -> (r: Vec<(RecipeId, Scalar)>)
        requires
            model.fits(*self.g),
            x.fits(*model),
        ensures
            r@ == self.used_ops_to(
                entries_of(model.recipes@),
                x.ops@,
                model.recipes@.len() as int,
            ),
            forall|i: int| 0 <= i < r@.len() ==> (#[trigger] r@[i]).0 < self.g.r_count(),
    {
        let ghost recipes = entries_of(model.recipes@);
        let eps = self.ar.ratio(1, 1_000_000_000);
        let mut r: Vec<(RecipeId, Scalar)> = Vec::new();
        let mut i: usize = 0;
        while i < model.recipes.len()
            invariant
                i <= model.recipes@.len(),
                model.fits(*self.g),
                x.fits(*model),
                recipes == entries_of(model.recipes@),
                eps == crate::planner::tree::eps(*self.ar),
                r@ == self.used_ops_to(recipes, x.ops@, i as int),
                forall|k: int| 0 <= k < r@.len() ==> (#[trigger] r@[k]).0 < self.g.r_count(),
            decreases model.recipes@.len() - i,
        {
            assert(entry_ok(recipes[i as int], model.materials@.len() as int, self.g.r_count()));
            let v = x.ops[i];
            if self.ar.lt(eps, v) {
                r.push((model.recipes[i].rid, v));
            }
            i += 1;
        }
        r
    }

    fn list_raw(&self, model: &LpModel, x: &LpSolution) -> (r: Vec<(MaterialId, Scalar)>)
        requires
            model.fits(*self.g),
            x.fits(*model),
        ensures
            r@ == self.used_raw_to(model.materials@, x.ext@, model.materials@.len() as int),
            forall|i: int| 0 <= i < r@.len() ==> (#[trigger] r@[i]).0 < self.g.m_count(),
    {
        let eps = self.ar.ratio(1, 1_000_000_000);
        let mut r: Vec<(MaterialId, Scalar)> = Vec::new();
        let mut i: usize = 0;
        while i < model.materials.len()
            invariant
                i <= model.materials@.len(),
                model.fits(*self.g),
                x.fits(*model),
                eps == crate::planner::tree::eps(*self.ar),
                r@ == self.used_raw_to(model.materials@, x.ext@, i as int),
                forall|k: int| 0 <= k < r@.len() ==> (#[trigger] r@[k]).0 < self.g.m_count(),
            decreases model.materials@.len() - i,
        {
            let v = x.ext[i];
            if self.ar.lt(eps, v) {
                r.push((model.materials[i], v));
            }
            i += 1;
        }
        r
    }

    fn find_greatest(&self, values: &Vec<Scalar>) -> (r: usize)
        requires
            values@.len() > 0,
        ensures
            r == self.greatest_to(values@, values@.len() as int).1,
            r < values@.len(),
    {
        let mut best = self.ar.ratio(0, 1);
        let mut at: usize = 0;
        let mut a: usize = 0;
        while a < values.len()
            invariant
                a <= values@.len(),
                at < values@.len(),
                (best, at as int) == self.greatest_to(values@, a as int),
            decreases values@.len() - a,
        {
            if self.ar.lt(best, values[a]) {
                best = values[a];
                at = a;
            }
            a += 1;
        }
        at
    }

    fn list_picks(&self, model: &LpModel, x: &LpSolution, k: usize) -> (r: (Vec<MaterialId>, bool))
        requires
            model.fits(*self.g),
            x.fits(*model),
            k < model.recipes@.len(),
        ensures
            ({
                let e = entries_of(model.recipes@)[k as int];
                &&& r.0@ == self.picks_to(
                    model.materials@,
                    e,
                    x.fills@[k as int]@,
                    e.inputs.len() as int,
                )
                &&& r.1 == chooses_to(e, e.inputs.len() as int)
            }),
    {
        let e = &model.recipes[k];
        let ghost shown = entries_of(model.recipes@)[k as int];
        let mut picks: Vec<MaterialId> = Vec::new();
        let mut chooses = false;
        let mut s: usize = 0;
        while s < e.inputs.len()
            invariant
                s <= e.inputs@.len(),
                model.fits(*self.g),
                x.fits(*model),
                k < model.recipes@.len(),
                *e == model.recipes@[k as int],
                shown == e@,
                shown == entries_of(model.recipes@)[k as int],
                picks@ == self.picks_to(
                    model.materials@,
                    shown,
                    x.fills@[k as int]@,
                    s as int,
                ),
                chooses == chooses_to(shown, s as int),
            decreases e.inputs@.len() - s,
        {
            assert(entry_ok(shown, model.materials@.len() as int, self.g.r_count()));
            assert(feed_ok(shown.inputs[s as int], model.materials@.len() as int));
            assert(shown.inputs[s as int] == e.inputs@[s as int]@);
            assert(x.fills@[k as int]@.len() == e.inputs@.len());
            match &e.inputs[s] {
                LpInput::Direct { material, qty } => {
                    picks.push(model.materials[*material]);
                },
                LpInput::Choice { alts } => {
                    chooses = true;
                    assert(x.fills@[k as int]@[s as int]@.len() == alts@.len());
                    let at = self.find_greatest(&x.fills[k][s]);
                    assert(alts@[at as int].0 < model.materials@.len());
                    picks.push(model.materials[alts[at].0]);
                },
            }
            s += 1;
        }
        (picks, chooses)
    }

    fn list_chosen(&self, model: &LpModel, x: &LpSolution) -> (r: HashMap<RecipeId, Vec<MaterialId>>)
        requires
            model.fits(*self.g),
            x.fits(*model),
        ensures
            alike(
                r@,
                self.chosen_to(
                    model.materials@,
                    entries_of(model.recipes@),
                    *x,
                    model.recipes@.len() as int,
                ),
            ),
    {
        broadcast use vstd::std_specs::hash::group_hash_axioms;

        let ghost recipes = entries_of(model.recipes@);
        let mut r: HashMap<RecipeId, Vec<MaterialId>> = HashMap::new();
        let mut k: usize = 0;
        assert(r@.dom() =~= self.chosen_to(model.materials@, recipes, *x, 0).dom());
        while k < model.recipes.len()
            invariant
                k <= model.recipes@.len(),
                model.fits(*self.g),
                x.fits(*model),
                recipes == entries_of(model.recipes@),
                alike(r@, self.chosen_to(model.materials@, recipes, *x, k as int)),
            decreases model.recipes@.len() - k,
        {
            let ghost before = self.chosen_to(model.materials@, recipes, *x, k as int);
            let ghost had = r@;
            let (picks, chooses) = self.list_picks(model, x, k);
            let ghost shown = picks@;
            if chooses {
                let rid: u32 = model.recipes[k].rid;
                r.insert(rid, picks);
                proof {
                    let map = before.insert(rid, shown);
                    assert(r@.dom() =~= map.dom());
                    assert forall|q: RecipeId| map.contains_key(q) implies (#[trigger] r@[q])@
                        == map[q] by {
                        if q != rid {
                            assert(before.contains_key(q));
                            assert(had[q]@ == before[q]);
                        }
                    }
                }
            }
            k += 1;
        }
        r
    }

    fn put(&self, v: &mut Vec<Scalar>, at: usize, q: Scalar)
        requires
            at < old(v)@.len(),
        ensures
            final(v)@ == self.add_at(old(v)@, at, q),
            final(v)@.len() == old(v)@.len(),
    {
        let sum = self.ar.plus(v[at], q);
        v[at] = sum;
    }

    fn put_made(&self, v: &mut Vec<Scalar>, e: &LpRecipe, op: Scalar)
        requires
            forall|k: int| 0 <= k < e.outputs@.len() ==> (#[trigger] e.outputs@[k]).0 < old(v)@.len(),
        ensures
            final(v)@ == self.made_with(old(v)@, e.outputs@, op, e.outputs@.len() as int),
            final(v)@.len() == old(v)@.len(),
    {
        let ghost start = v@;
        let mut k: usize = 0;
        while k < e.outputs.len()
            invariant
                k <= e.outputs@.len(),
                v@.len() == start.len(),
                forall|k: int| 0 <= k < e.outputs@.len() ==> (#[trigger] e.outputs@[k]).0 < start.len(),
                v@ == self.made_with(start, e.outputs@, op, k as int),
            decreases e.outputs@.len() - k,
        {
            let (at, q): (usize, Scalar) = e.outputs[k];
            assert(e.outputs@[k as int].0 < start.len());
            self.put(v, at, self.ar.times(op, q));
            k += 1;
        }
    }

    fn put_filled(&self, v: &mut Vec<Scalar>, alts: &Vec<(usize, Scalar)>, fills: &Vec<Scalar>)
        requires
            fills@.len() == alts@.len(),
            forall|k: int| 0 <= k < alts@.len() ==> (#[trigger] alts@[k]).0 < old(v)@.len(),
        ensures
            final(v)@ == self.filled_with(old(v)@, alts@, fills@, alts@.len() as int),
            final(v)@.len() == old(v)@.len(),
    {
        let ghost start = v@;
        let mut a: usize = 0;
        while a < alts.len()
            invariant
                a <= alts@.len(),
                fills@.len() == alts@.len(),
                v@.len() == start.len(),
                forall|k: int| 0 <= k < alts@.len() ==> (#[trigger] alts@[k]).0 < start.len(),
                v@ == self.filled_with(start, alts@, fills@, a as int),
            decreases alts@.len() - a,
        {
            let (at, q): (usize, Scalar) = alts[a];
            assert(alts@[a as int].0 < start.len());
            self.put(v, at, self.ar.times(fills[a], q));
            a += 1;
        }
    }

    fn put_taken(&self, v: &mut Vec<Scalar>, model: &LpModel, x: &LpSolution, k: usize, op: Scalar)
        requires
            model.fits(*self.g),
            x.fits(*model),
            k < model.recipes@.len(),
            old(v)@.len() == model.materials@.len(),
        ensures
            ({
                let e = entries_of(model.recipes@)[k as int];
                final(v)@ == self.taken_with(
                    old(v)@,
                    e,
                    op,
                    x.fills@[k as int]@,
                    e.inputs.len() as int,
                )
            }),
            final(v)@.len() == old(v)@.len(),
    {
        let ghost start = v@;
        let e = &model.recipes[k];
        let ghost shown = entries_of(model.recipes@)[k as int];
        let mut s: usize = 0;
        while s < e.inputs.len()
            invariant
                s <= e.inputs@.len(),
                model.fits(*self.g),
                x.fits(*model),
                k < model.recipes@.len(),
                *e == model.recipes@[k as int],
                shown == e@,
                shown == entries_of(model.recipes@)[k as int],
                start.len() == model.materials@.len(),
                v@.len() == start.len(),
                v@ == self.taken_with(start, shown, op, x.fills@[k as int]@, s as int),
            decreases e.inputs@.len() - s,
        {
            assert(entry_ok(shown, model.materials@.len() as int, self.g.r_count()));
            assert(feed_ok(shown.inputs[s as int], model.materials@.len() as int));
            assert(shown.inputs[s as int] == e.inputs@[s as int]@);
            assert(x.fills@[k as int]@.len() == e.inputs@.len());
            match &e.inputs[s] {
                LpInput::Direct { material, qty } => {
                    self.put(v, *material, self.ar.times(op, *qty));
                },
                LpInput::Choice { alts } => {
                    assert(x.fills@[k as int]@[s as int]@.len() == alts@.len());
                    self.put_filled(v, alts, &x.fills[k][s]);
                },
            }
            s += 1;
        }
    }

    fn count_flows(&self, model: &LpModel, x: &LpSolution) -> (r: (Vec<Scalar>, Vec<Scalar>))
        requires
            model.fits(*self.g),
            x.fits(*model),
        ensures
            (r.0@, r.1@) == self.flows_to(
                entries_of(model.recipes@),
                *x,
                model.materials@.len(),
                model.recipes@.len() as int,
            ),
            r.0@.len() == model.materials@.len(),
            r.1@.len() == model.materials@.len(),
    {
        let ghost recipes = entries_of(model.recipes@);
        let n: usize = model.materials.len();
        let eps = self.ar.ratio(1, 1_000_000_000);
        let mut made = filled(n, self.ar.ratio(0, 1));
        let mut taken = filled(n, self.ar.ratio(0, 1));
        proof {
            let none = self.flows_to(recipes, *x, n as nat, 0);
            assert(made@ =~= none.0);
            assert(taken@ =~= none.1);
        }
        let mut k: usize = 0;
        while k < model.recipes.len()
            invariant
                k <= model.recipes@.len(),
                model.fits(*self.g),
                x.fits(*model),
                n == model.materials@.len(),
                eps == crate::planner::tree::eps(*self.ar),
                recipes == entries_of(model.recipes@),
                made@.len() == n,
                taken@.len() == n,
                (made@, taken@) == self.flows_to(recipes, *x, n as nat, k as int),
            decreases model.recipes@.len() - k,
        {
            let op = x.ops[k];
            if !self.ar.le(op, eps) {
                assert(entry_ok(recipes[k as int], n as int, self.g.r_count()));
                assert forall|j: int| 0 <= j < model.recipes@[k as int].outputs@.len() implies (
                #[trigger] model.recipes@[k as int].outputs@[j]).0 < n by {
                    assert(recipes[k as int].outputs[j].0 < n);
                }
                self.put_made(&mut made, &model.recipes[k], op);
                self.put_taken(&mut taken, model, x, k, op);
            }
            k += 1;
        }
        (made, taken)
    }

    fn list_left(&self, model: &LpModel, made: &Vec<Scalar>, taken: &Vec<Scalar>) -> (r: Vec<
        (MaterialId, Scalar),
    >)
        requires
            model.fits(*self.g),
            made@.len() == model.materials@.len(),
            taken@.len() == model.materials@.len(),
        ensures
            r@ == self.left_to(
                model.materials@,
                (made@, taken@),
                model.materials@.len() as int,
            ),
            forall|i: int| 0 <= i < r@.len() ==> (#[trigger] r@[i]).0 < self.g.m_count(),
    {
        let little = self.ar.ratio(1, 1_000_000);
        let mut r: Vec<(MaterialId, Scalar)> = Vec::new();
        let mut i: usize = 0;
        while i < model.materials.len()
            invariant
                i <= model.materials@.len(),
                model.fits(*self.g),
                made@.len() == model.materials@.len(),
                taken@.len() == model.materials@.len(),
                little == self.ar.ratio_spec(1, 1_000_000),
                r@ == self.left_to(model.materials@, (made@, taken@), i as int),
                forall|k: int| 0 <= k < r@.len() ==> (#[trigger] r@[k]).0 < self.g.m_count(),
            decreases model.materials@.len() - i,
        {
            let m: u32 = model.materials[i];
            let asked = if m == self.target {
                self.rate_per_min
            } else {
                self.ar.ratio(0, 1)
            };
            let surplus = self.ar.minus(self.ar.minus(made[i], taken[i]), asked);
            if self.ar.lt(little, surplus) {
                r.push((m, surplus));
            }
            i += 1;
        }
        r
    }

    fn count_cyclic(&self, ops: &Vec<(RecipeId, Scalar)>) -> (r: usize)
        requires
            self.ok(),
            forall|i: int| 0 <= i < ops@.len() ==> (#[trigger] ops@[i]).0 < self.g.r_count(),
        ensures
            r == self.cyclic_to(ops@, ops@.len() as int),
    {
        let mut r: usize = 0;
        let mut k: usize = 0;
        while k < ops.len()
            invariant
                k <= ops@.len(),
                self.ok(),
                forall|i: int| 0 <= i < ops@.len() ==> (#[trigger] ops@[i]).0 < self.g.r_count(),
                r <= k,
                r == self.cyclic_to(ops@, k as int),
            decreases ops@.len() - k,
        {
            let (rid, _): (u32, Scalar) = ops[k];
            assert(ops@[k as int].0 < self.g.r_count());
            if self.is_on_cycle(rid) {
                r += 1;
            }
            k += 1;
        }
        r
    }
}

fn count_choices(model: &LpModel) -> (r: (usize, usize))
    ensures
        r == counts_to(entries_of(model.recipes@), model.recipes@.len() as int),
{
    let ghost recipes = entries_of(model.recipes@);
    let mut alts_all: usize = 0;
    let mut slots_all: usize = 0;
    let mut k: usize = 0;
    while k < model.recipes.len()
        invariant
            k <= model.recipes@.len(),
            recipes == entries_of(model.recipes@),
            (alts_all, slots_all) == counts_to(recipes, k as int),
        decreases model.recipes@.len() - k,
    {
        let e = &model.recipes[k];
        let ghost shown = recipes[k as int];
        let mut alts_here: usize = 0;
        let mut slots_here: usize = 0;
        let mut s: usize = 0;
        while s < e.inputs.len()
            invariant
                s <= e.inputs@.len(),
                shown == e@,
                alts_here == alt_count_to(shown, s as int),
                slots_here == choice_count_to(shown, s as int),
            decreases e.inputs@.len() - s,
        {
            assert(shown.inputs[s as int] == e.inputs@[s as int]@);
            match &e.inputs[s] {
                LpInput::Choice { alts } => {
                    alts_here = sum_capped(alts_here, alts.len());
                    slots_here = sum_capped(slots_here, 1);
                },
                LpInput::Direct { .. } => {},
            }
            s += 1;
        }
        alts_all = sum_capped(alts_all, alts_here);
        slots_all = sum_capped(slots_all, slots_here);
        k += 1;
    }
    (alts_all, slots_all)
}

/// A note that is made under a condition.
pub open spec fn note_if(cond: bool, text: Seq<char>) -> Seq<Seq<char>> {
    if cond {
        seq![text]
    } else {
        Seq::empty()
    }
}

fn add_note(notes: &mut Vec<String>, text: String)
    ensures
        crate::intern::texts(final(notes)@) == crate::intern::texts(old(notes)@) + note_if(
            true,
            text@,
        ),
{
    let ghost before = crate::intern::texts(notes@);
    let ghost shown = text@;
    notes.push(text);
    assert(crate::intern::texts(notes@) =~= before + note_if(true, shown));
}

fn wrapped(before: &str, n: usize, after: &str) -> (r: String)
    ensures
        r@ == before@ + crate::text::decimal(n as nat) + after@,
{
    let a = joined(before, decimal_string(n as u64).as_str());
    joined(a.as_str(), after)
}

/// The message when a program could not be solved.
pub fn failure(detail: &str) -> (r: String)
    ensures
        r@ == "LP 求解失败: "@ + detail@,
{
    joined("LP 求解失败: ", detail)
}

impl<'a, A: Arithmetic> Exact<'a, A> {
    /// The note on the program and its solution.
    pub open spec fn solved_note(self, model: LpModel, x: LpSolution) -> Seq<char> {
        "LP 精确求解："@ + crate::text::decimal(model.materials@.len()) + " 材料 / "@
            + crate::text::decimal(model.recipes@.len()) + " 配方，目标值 "@
            + self.ar.decimals_spec(x.objective, 4)@ + "，状态 "@ + x.status@
    }

    /// The notes of a plan.
    pub open spec fn notes(self, model: LpModel, x: LpSolution, cyclic: nat) -> Seq<Seq<char>> {
        seq![
            self.solved_note(model, x),
            "多目标加权：外部输入按 CostVector 价格计费；操作计入 EU×w_eu + 机器时间×w_machine；OR 槽由 LP 联合决定"@,
        ] + note_if(
            model.skipped_recycling > 0,
            "已排除回收类配方（"@ + crate::text::decimal(model.skipped_recycling as nat)
                + " 处引用）；可用 include_recycling 开启（纯物料模型下回收环可能刷材料）"@,
        ) + note_if(
            model.skipped_amplifying > 0,
            "已屏蔽 "@ + crate::text::decimal(model.skipped_amplifying as nat)
                + " 条'循环+材料放大'配方（保守模式，可能误伤正常制造）"@,
        ) + note_if(
            cyclic > 0,
            "方案包含 "@ + crate::text::decimal(cyclic)
                + " 条循环配方：物料模型不含耗电惩罚时可能利用放大环；更保守的方案请用 beam 模式"@,
        ) + note_if(
            model.truncated,
            "子图达到上限（材料 "@ + crate::text::decimal(self.opts.max_materials as nat)
                + " / 配方 "@ + crate::text::decimal(self.opts.max_recipes as nat)
                + "），结果可能非全局最优"@,
        ) + note_if(true, crate::planner::tree::gt_note())
    }

    fn write_notes(&self, model: &LpModel, x: &LpSolution, cyclic: usize) -> (r: Vec<String>)
        ensures
            crate::intern::texts(r@) == self.notes(*model, *x, cyclic as nat),
    {
        let mut notes: Vec<String> = Vec::new();
        let a = wrapped("LP 精确求解：", model.materials.len(), " 材料 / ");
        let b = joined(a.as_str(), decimal_string(model.recipes.len() as u64).as_str());
        let c = joined(b.as_str(), " 配方，目标值 ");
        let d = joined(c.as_str(), self.ar.decimals(x.objective, 4).as_str());
        let e = joined(d.as_str(), "，状态 ");
        let solved = joined(e.as_str(), x.status.as_str());
        assert(solved@ == self.solved_note(*model, *x));
        notes.push(solved);
        notes.push(
            "多目标加权：外部输入按 CostVector 价格计费；操作计入 EU×w_eu + 机器时间×w_machine；OR 槽由 LP 联合决定".to_owned(),
        );
        assert(crate::intern::texts(notes@) =~= seq![
            self.solved_note(*model, *x),
            "多目标加权：外部输入按 CostVector 价格计费；操作计入 EU×w_eu + 机器时间×w_machine；OR 槽由 LP 联合决定"@,
        ]);
        let ghost n0 = crate::intern::texts(notes@);
        if model.skipped_recycling > 0 {
            add_note(
                &mut notes,
                wrapped(
                    "已排除回收类配方（",
                    model.skipped_recycling,
                    " 处引用）；可用 include_recycling 开启（纯物料模型下回收环可能刷材料）",
                ),
            );
        } else {
            assert(n0 + Seq::<Seq<char>>::empty() =~= n0);
        }
        let ghost n1 = crate::intern::texts(notes@);
        if model.skipped_amplifying > 0 {
            add_note(
                &mut notes,
                wrapped(
                    "已屏蔽 ",
                    model.skipped_amplifying,
                    " 条'循环+材料放大'配方（保守模式，可能误伤正常制造）",
                ),
            );
        } else {
            assert(n1 + Seq::<Seq<char>>::empty() =~= n1);
        }
        let ghost n2 = crate::intern::texts(notes@);
        if cyclic > 0 {
            add_note(
                &mut notes,
                wrapped(
                    "方案包含 ",
                    cyclic,
                    " 条循环配方：物料模型不含耗电惩罚时可能利用放大环；更保守的方案请用 beam 模式",
                ),
            );
        } else {
            assert(n2 + Seq::<Seq<char>>::empty() =~= n2);
        }
        let ghost n3 = crate::intern::texts(notes@);
        if model.truncated {
            let t = wrapped("子图达到上限（材料 ", self.opts.max_materials, " / 配方 ");
            let u = joined(t.as_str(), decimal_string(self.opts.max_recipes as u64).as_str());
            add_note(&mut notes, joined(u.as_str(), "），结果可能非全局最优"));
        } else {
            assert(n3 + Seq::<Seq<char>>::empty() =~= n3);
        }
        add_note(
            &mut notes,
            "原版配方无 GT 时长/耗电数据，机器数与 EU 仅统计 GT 配方".to_owned(),
        );
        notes
    }

    /// `plan` is what a solution of the program comes to.
    pub open spec fn plans(self, model: LpModel, x: LpSolution, plan: Plan) -> bool {
        let materials = model.materials@;
        let recipes = entries_of(model.recipes@);
        let ops = self.used_ops_to(recipes, x.ops@, recipes.len() as int);
        let raw = self.used_raw_to(materials, x.ext@, materials.len() as int);
        let flows = self.flows_to(recipes, x, materials.len(), recipes.len() as int);
        let counts = counts_to(recipes, recipes.len() as int);
        &&& exists|alts: HashMap<RecipeId, Vec<MaterialId>>| #[trigger]
            alike(alts@, self.chosen_to(materials, recipes, x, recipes.len() as int)) && (
            Assembly { ar: self.ar, g: self.g, an: self.an, alts: Some(&alts) }).assembles(
                self.target,
                self.rate_per_min,
                "exact"@,
                ops,
                raw,
                self.left_to(materials, flows, materials.len() as int),
                self.notes(model, x, self.cyclic_to(ops, ops.len() as int)),
                plan,
            )
        &&& plan.metrics.evaluations == 1
        &&& plan.metrics.lp_variables == Some(
            crate::list::capped(crate::list::capped(materials.len() as usize, recipes.len() as usize), counts.0),
        )
        &&& plan.metrics.lp_constraints == Some(crate::list::capped(materials.len() as usize, counts.1))
        &&& crate::graph::text_of(plan.metrics.lp_status) == Some(x.status@)
        &&& plan.metrics.lp_objective == Some(x.objective)
        &&& plan.metrics.search_ms == self.ar.ratio_spec(0, 1)
        &&& plan.elapsed_ms == self.ar.ratio_spec(0, 1)
    }

    /// The plan that a solution of the program comes to.
    pub fn plan(&self, model: &LpModel, x: &LpSolution) -> (plan: Plan)
        requires
            self.ok(),
            model.fits(*self.g),
            x.fits(*model),
        ensures
            self.plans(*model, *x, plan),
    {
        let ops = self.list_ops(model, x);
        let raw = self.list_raw(model, x);
        let alts = self.list_chosen(model, x);
        let (made, taken) = self.count_flows(model, x);
        let left = self.list_left(model, &made, &taken);
        let cyclic = self.count_cyclic(&ops);
        let notes = self.write_notes(model, x, cyclic);
        let (fill_vars, fill_slots): (usize, usize) = count_choices(model);
        let zero = self.ar.ratio(0, 1);
        let metrics = PlanMetrics {
            evaluations: 1,
            lp_variables: Some(
                sum_capped(sum_capped(model.materials.len(), model.recipes.len()), fill_vars),
            ),
            lp_constraints: Some(sum_capped(model.materials.len(), fill_slots)),
            lp_status: Some(x.status.clone()),
            lp_objective: Some(x.objective),
            search_ms: zero,
        };
        let assembly = Assembly { ar: self.ar, g: self.g, an: self.an, alts: Some(&alts) };
        assembly.assemble(
            self.target,
            self.rate_per_min,
            "exact",
            &ops,
            &raw,
            &left,
            metrics,
            notes,
            zero,
        )
    }
}

} // verus!

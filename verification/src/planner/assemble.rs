//! Plans out of operations, raw materials and by-products.
use std::collections::HashMap;

use vstd::prelude::*;

use crate::analysis::Analysis;
use crate::graph::KnowledgeGraph;
use crate::model::{copy_option, GtRecipeInfo, MaterialId, RecipeId};
use crate::order::{reorder, sort_positions};
use crate::plan::{EntryText, Plan, PlanEntry, PlanMetrics, PlanTotals, PlannedRecipe, StepText};
use crate::planner::tree::norm_rate;
use crate::scalar::{Arithmetic, Scalar};
use crate::text::{decimal_string, is_text_before, joined};
use crate::util::cheapest_alt;

verus! {

/// Makes plans.
pub struct Assembly<'a, A> {
    pub ar: &'a A,
    pub g: &'a KnowledgeGraph,
    pub an: &'a Analysis,
    /// For some recipes the material that fills each slot.
    pub alts: Option<&'a HashMap<RecipeId, Vec<MaterialId>>>,
}

/// Sums over the steps of a plan.
pub struct Sums {
    pub machines: Scalar,
    pub machines_int: u64,
    pub consume_eu_t: Scalar,
    pub generate_eu_t: Scalar,
    pub net_eu_per_min: Scalar,
}

/// The sum, or the greatest number where that is greater.
pub open spec fn capped_sum(a: u64, b: u64) -> u64 {
    if a + b > u64::MAX {
        u64::MAX
    } else {
        (a + b) as u64
    }
}

fn add_capped(a: u64, b: u64) -> (r: u64)
    ensures
        r == capped_sum(a, b),
{
    if a > u64::MAX - b {
        u64::MAX
    } else {
        a + b
    }
}

/// Greater rates come first; entries of one rate by name.
pub open spec fn rate_before<A: Arithmetic>(
    ar: A,
    a: Scalar,
    a_name: Seq<char>,
    b: Scalar,
    b_name: Seq<char>,
) -> bool {
    ar.total_before_spec(b, a) || (!ar.total_before_spec(a, b) && crate::text::text_before(
        a_name,
        b_name,
    ))
}

fn is_rate_before<A: Arithmetic>(ar: &A, a: Scalar, a_name: &str, b: Scalar, b_name: &str) -> (r: bool)
    ensures
        r == rate_before(*ar, a, a_name@, b, b_name@),
{
    ar.total_before(b, a) || (!ar.total_before(a, b) && is_text_before(a_name, b_name))
}

proof fn rate_before_orders<A: Arithmetic>(
    ar: A,
    a: Scalar,
    a_name: Seq<char>,
    b: Scalar,
    b_name: Seq<char>,
    c: Scalar,
    c_name: Seq<char>,
)
    ensures
        !rate_before(ar, a, a_name, a, a_name),
        rate_before(ar, a, a_name, b, b_name) && rate_before(ar, b, b_name, c, c_name)
            ==> rate_before(ar, a, a_name, c, c_name),
        rate_before(ar, a, a_name, c, c_name) ==> rate_before(ar, a, a_name, b, b_name)
            || rate_before(ar, b, b_name, c, c_name),
{
    ar.total_before_orders();
    crate::text::text_before_orders(a_name, b_name, c_name);
    crate::text::text_before_orders(a_name, c_name, b_name);
    crate::text::text_before_orders(b_name, a_name, c_name);
    crate::text::text_before_orders(b_name, c_name, a_name);
    crate::text::text_before_orders(a_name, a_name, a_name);
    assert(!ar.total_before_spec(a, a));
    if rate_before(ar, a, a_name, b, b_name) && rate_before(ar, b, b_name, c, c_name) {
        if ar.total_before_spec(b, a) {
            assert(ar.total_before_spec(b, c) || ar.total_before_spec(c, a));
            if ar.total_before_spec(c, b) {
                assert(ar.total_before_spec(c, a));
            }
        } else if ar.total_before_spec(c, b) {
            assert(ar.total_before_spec(c, a) || ar.total_before_spec(a, b));
        } else if ar.total_before_spec(a, c) {
            assert(ar.total_before_spec(a, b) || ar.total_before_spec(b, c));
        }
    }
    if rate_before(ar, a, a_name, c, c_name) {
        if ar.total_before_spec(c, a) {
            assert(ar.total_before_spec(c, b) || ar.total_before_spec(b, a));
        } else {
            if ar.total_before_spec(a, b) && ar.total_before_spec(b, c) {
                assert(ar.total_before_spec(a, c));
            }
            if !ar.total_before_spec(b, a) && !ar.total_before_spec(c, b) {
                if ar.total_before_spec(a, b) {
                    assert(ar.total_before_spec(a, c) || ar.total_before_spec(c, b));
                }
                if ar.total_before_spec(b, c) {
                    assert(ar.total_before_spec(b, a) || ar.total_before_spec(a, c));
                }
            }
        }
    }
}

/// The order of the steps of a plan: more operations first, then by name.
pub open spec fn step_order<A: Arithmetic>(ar: A, s: Seq<StepText>) -> spec_fn(int, int) -> bool {
    |i: int, j: int|
        rate_before(ar, s[i].ops_per_min, s[i].recipe, s[j].ops_per_min, s[j].recipe)
}

/// The order of entries: greater rates first, then by id.
pub open spec fn entry_order<A: Arithmetic>(ar: A, s: Seq<EntryText>) -> spec_fn(int, int) -> bool {
    |i: int, j: int|
        rate_before(ar, s[i].rate_per_min, s[i].material.id, s[j].rate_per_min, s[j].material.id)
}

pub(crate) proof fn step_order_orders<A: Arithmetic>(ar: A, s: Seq<StepText>)
    ensures
        crate::order::orders(step_order(ar, s), s.len() as int),
{
    let lt = step_order(ar, s);
    let n = s.len() as int;
    assert forall|i: int| 0 <= i < n implies !#[trigger] lt(i, i) by {
        let a = s[i];
        rate_before_orders(
            ar,
            a.ops_per_min,
            a.recipe,
            a.ops_per_min,
            a.recipe,
            a.ops_per_min,
            a.recipe,
        );
    }
    assert forall|i: int, j: int, k: int|
        0 <= i < n && 0 <= j < n && 0 <= k < n && #[trigger] lt(i, j) && #[trigger] lt(
            j,
            k,
        ) implies lt(i, k) by {
        rate_before_orders(
            ar,
            s[i].ops_per_min,
            s[i].recipe,
            s[j].ops_per_min,
            s[j].recipe,
            s[k].ops_per_min,
            s[k].recipe,
        );
    }
    assert forall|i: int, j: int, k: int|
        #![trigger lt(i, k), lt(i, j)]
        #![trigger lt(i, k), lt(j, k)]
        0 <= i < n && 0 <= j < n && 0 <= k < n && lt(i, k) implies lt(i, j) || lt(j, k) by {
        rate_before_orders(
            ar,
            s[i].ops_per_min,
            s[i].recipe,
            s[j].ops_per_min,
            s[j].recipe,
            s[k].ops_per_min,
            s[k].recipe,
        );
    }
}

pub(crate) proof fn entry_order_orders<A: Arithmetic>(ar: A, s: Seq<EntryText>)
    ensures
        crate::order::orders(entry_order(ar, s), s.len() as int),
{
    let lt = entry_order(ar, s);
    let n = s.len() as int;
    assert forall|i: int| 0 <= i < n implies !#[trigger] lt(i, i) by {
        let a = s[i];
        rate_before_orders(
            ar,
            a.rate_per_min,
            a.material.id,
            a.rate_per_min,
            a.material.id,
            a.rate_per_min,
            a.material.id,
        );
    }
    assert forall|i: int, j: int, k: int|
        0 <= i < n && 0 <= j < n && 0 <= k < n && #[trigger] lt(i, j) && #[trigger] lt(
            j,
            k,
        ) implies lt(i, k) by {
        rate_before_orders(
            ar,
            s[i].rate_per_min,
            s[i].material.id,
            s[j].rate_per_min,
            s[j].material.id,
            s[k].rate_per_min,
            s[k].material.id,
        );
    }
    assert forall|i: int, j: int, k: int|
        #![trigger lt(i, k), lt(i, j)]
        #![trigger lt(i, k), lt(j, k)]
        0 <= i < n && 0 <= j < n && 0 <= k < n && lt(i, k) implies lt(i, j) || lt(j, k) by {
        rate_before_orders(
            ar,
            s[i].rate_per_min,
            s[i].material.id,
            s[j].rate_per_min,
            s[j].material.id,
            s[k].rate_per_min,
            s[k].material.id,
        );
    }
}

/// Steps in the order of a plan.
fn sort_steps<A: Arithmetic>(ar: &A, v: Vec<PlannedRecipe>) -> (r: Vec<PlannedRecipe>)
    ensures
        crate::order::sorted_by(
            crate::plan::step_texts(v@),
            step_order(*ar, crate::plan::step_texts(v@)),
            crate::plan::step_texts(r@),
        ),
{
    let ghost texts = crate::plan::step_texts(v@);
    let ghost before = step_order(*ar, texts);
    proof {
        step_order_orders(*ar, texts);
    }
    let less = |i: usize, j: usize| -> (b: bool)
        requires
            i < v@.len() && j < v@.len(),
        ensures
            b == rate_before(
                *ar,
                v@[i as int].ops_per_min,
                v@[i as int].recipe@,
                v@[j as int].ops_per_min,
                v@[j as int].recipe@,
            ),
        {
            is_rate_before(
                ar,
                v[i].ops_per_min,
                v[i].recipe.as_str(),
                v[j].ops_per_min,
                v[j].recipe.as_str(),
            )
        };
    let p = sort_positions(v.len(), less, Ghost(before));
    proof {
        crate::order::stable_order_is_permutation(before, texts.len() as int, p@);
    }
    let ghost items = v@;
    let r = reorder(v, &p);
    assert(crate::plan::step_texts(r@) =~= crate::order::listed(texts, p@));
    r
}

/// Entries in the order of a plan.
fn sort_entries<A: Arithmetic>(ar: &A, v: Vec<PlanEntry>) -> (r: Vec<PlanEntry>)
    ensures
        crate::order::sorted_by(
            crate::plan::entry_texts(v@),
            entry_order(*ar, crate::plan::entry_texts(v@)),
            crate::plan::entry_texts(r@),
        ),
{
    let ghost texts = crate::plan::entry_texts(v@);
    let ghost before = entry_order(*ar, texts);
    proof {
        entry_order_orders(*ar, texts);
    }
    let less = |i: usize, j: usize| -> (b: bool)
        requires
            i < v@.len() && j < v@.len(),
        ensures
            b == rate_before(
                *ar,
                v@[i as int].rate_per_min,
                v@[i as int].material.id@,
                v@[j as int].rate_per_min,
                v@[j as int].material.id@,
            ),
        {
            is_rate_before(
                ar,
                v[i].rate_per_min,
                v[i].material.id.as_str(),
                v[j].rate_per_min,
                v[j].material.id.as_str(),
            )
        };
    let p = sort_positions(v.len(), less, Ghost(before));
    proof {
        crate::order::stable_order_is_permutation(before, texts.len() as int, p@);
    }
    let r = reorder(v, &p);
    assert(crate::plan::entry_texts(r@) =~= crate::order::listed(texts, p@));
    r
}

impl<'a, A: Arithmetic> Assembly<'a, A> {
    pub open spec fn ok(self) -> bool {
        self.an.fits(*self.ar, *self.g)
    }

    /// The material that was chosen for slot `s` of a recipe.
    pub open spec fn chosen_alt(self, rid: RecipeId, s: int) -> Option<MaterialId> {
        match self.alts {
            Some(map) => if map@.contains_key(rid) && s < map@[rid]@.len() {
                Some(map@[rid]@[s])
            } else {
                None
            },
            None => None,
        }
    }

    /// What fills slot `s` of a recipe: what was chosen, if the slot offers it,
    /// and otherwise its cheapest candidate.
    pub open spec fn input(self, rid: RecipeId, s: int) -> Option<(MaterialId, u64)> {
        let slot = self.g.recipes@[rid as int].inputs@[s];
        let cheapest = crate::util::cheapest_spec(
            *self.ar,
            *self.g,
            self.an.cost.unit_cost@,
            Some(self.an.cost.cyclic@),
            slot,
        );
        match self.chosen_alt(rid, s) {
            Some(m) => match crate::util::qty_among(slot.alts@, m) {
                Some(q) => Some((m, q)),
                None => cheapest,
            },
            None => cheapest,
        }
    }

    /// The entries of the first `s` input slots.
    pub open spec fn inputs_to(self, rid: RecipeId, op: Scalar, s: int) -> Seq<EntryText>
        decreases s,
    {
        if s <= 0 {
            Seq::empty()
        } else {
            let rest = self.inputs_to(rid, op, s - 1);
            match self.input(rid, s - 1) {
                Some((m, q)) => rest.push(
                    EntryText {
                        material: self.g.dto(m),
                        rate_per_min: self.ar.times_spec(op, self.ar.ratio_spec(q, 1)),
                        chance: None,
                    },
                ),
                None => rest,
            }
        }
    }

    /// The chance of an output, where it is not certain.
    pub open spec fn shown_chance(self, chance: Scalar) -> Option<Scalar> {
        if self.ar.lt_spec(
            chance,
            self.ar.minus_spec(
                self.ar.ratio_spec(1, 1),
                self.ar.ratio_spec(1, 1_000_000_000),
            ),
        ) {
            Some(chance)
        } else {
            None
        }
    }

    /// The entries of the first `s` output slots.
    pub open spec fn outputs_to(self, rid: RecipeId, op: Scalar, s: int) -> Seq<EntryText>
        decreases s,
    {
        if s <= 0 {
            Seq::empty()
        } else {
            let rest = self.outputs_to(rid, op, s - 1);
            match self.g.recipes@[rid as int].outputs@[s - 1].primary_spec() {
                Some((m, q)) => {
                    let chance = self.g.output_chance_spec(*self.ar, rid, m);
                    rest.push(
                        EntryText {
                            material: self.g.dto(m),
                            rate_per_min: self.ar.times_spec(
                                self.ar.times_spec(op, self.ar.ratio_spec(q, 1)),
                                chance,
                            ),
                            chance: self.shown_chance(chance),
                        },
                    )
                },
                None => rest,
            }
        }
    }

    /// How many machines run `op` operations a minute.
    pub open spec fn machines(self, gt: GtRecipeInfo, op: Scalar) -> Scalar {
        if gt.duration_ticks > 0 {
            self.ar.over_spec(
                self.ar.times_spec(op, self.ar.ratio_spec(gt.duration_ticks as u64, 1)),
                self.ar.ratio_spec(1200, 1),
            )
        } else {
            self.ar.ratio_spec(0, 1)
        }
    }

    /// The step that runs `op` operations of a recipe a minute.
    pub open spec fn step(self, rid: RecipeId, op: Scalar) -> StepText {
        let r = self.g.recipes@[rid as int];
        let cat = self.g.categories@[r.category as int];
        let inputs = self.inputs_to(rid, op, r.inputs@.len() as int);
        let outputs = self.outputs_to(rid, op, r.outputs@.len() as int);
        let plain = StepText {
            recipe: self.g.full_id(rid),
            category: cat.ty@,
            category_title: cat.title@,
            ops_per_min: op,
            machine_count: None,
            machine_count_int: None,
            eut: None,
            tier: None,
            eu_per_min: None,
            inputs,
            outputs,
        };
        match r.gt {
            Some(gt) => StepText {
                machine_count: Some(self.machines(gt, op)),
                machine_count_int: Some(self.ar.ceil_spec(self.machines(gt, op))),
                eut: Some(gt.total_eu_t),
                tier: crate::graph::text_of(gt.tier),
                eu_per_min: Some(self.ar.times_spec(op, gt.total_eu)),
                ..plain
            },
            None => plain,
        }
    }

    /// The steps of the first `i` operations that are more than nothing.
    pub open spec fn steps_to(self, ops: Seq<(RecipeId, Scalar)>, i: int) -> Seq<StepText>
        decreases i,
    {
        if i <= 0 {
            Seq::empty()
        } else {
            let rest = self.steps_to(ops, i - 1);
            let (rid, op) = ops[i - 1];
            if self.ar.le_spec(op, crate::planner::tree::eps(*self.ar)) {
                rest
            } else {
                rest.push(self.step(rid, op))
            }
        }
    }

    /// The sums with one more step.
    pub open spec fn counted(self, t: Sums, rid: RecipeId, op: Scalar) -> Sums {
        match self.g.recipes@[rid as int].gt {
            Some(gt) => {
                let n = self.machines(gt, op);
                let eu = self.ar.times_spec(op, gt.total_eu);
                if gt.consumes_spec() {
                    Sums {
                        machines: self.ar.plus_spec(t.machines, n),
                        machines_int: capped_sum(t.machines_int, self.ar.ceil_spec(n)),
                        consume_eu_t: self.ar.plus_spec(
                            t.consume_eu_t,
                            self.ar.times_spec(n, gt.total_eu_t),
                        ),
                        net_eu_per_min: self.ar.plus_spec(t.net_eu_per_min, eu),
                        ..t
                    }
                } else if gt.generates_spec() {
                    Sums {
                        machines: self.ar.plus_spec(t.machines, n),
                        machines_int: capped_sum(t.machines_int, self.ar.ceil_spec(n)),
                        generate_eu_t: self.ar.plus_spec(
                            t.generate_eu_t,
                            self.ar.times_spec(n, gt.total_eu_t),
                        ),
                        net_eu_per_min: self.ar.minus_spec(t.net_eu_per_min, eu),
                        ..t
                    }
                } else {
                    t
                }
            },
            None => t,
        }
    }

    /// The sums over the first `i` operations that are more than nothing.
    pub open spec fn sums_to(self, ops: Seq<(RecipeId, Scalar)>, i: int) -> Sums
        decreases i,
    {
        let zero = self.ar.ratio_spec(0, 1);
        if i <= 0 {
            Sums {
                machines: zero,
                machines_int: 0,
                consume_eu_t: zero,
                generate_eu_t: zero,
                net_eu_per_min: zero,
            }
        } else {
            let rest = self.sums_to(ops, i - 1);
            let (rid, op) = ops[i - 1];
            if self.ar.le_spec(op, crate::planner::tree::eps(*self.ar)) {
                rest
            } else {
                self.counted(rest, rid, op)
            }
        }
    }

    /// The entries of the first `i` materials that are more than nothing.
    pub open spec fn entries_to(self, list: Seq<(MaterialId, Scalar)>, i: int) -> Seq<EntryText>
        decreases i,
    {
        if i <= 0 {
            Seq::empty()
        } else {
            let rest = self.entries_to(list, i - 1);
            let (m, qty) = list[i - 1];
            if self.ar.le_spec(qty, crate::planner::tree::eps(*self.ar)) {
                rest
            } else {
                rest.push(
                    EntryText { material: self.g.dto(m), rate_per_min: qty, chance: None },
                )
            }
        }
    }

    /// The cost, the items and the fluids of the first `i` raw materials.
    pub open spec fn raw_to(self, raw: Seq<(MaterialId, Scalar)>, i: int) -> (Scalar, Scalar, Scalar)
        decreases i,
    {
        let zero = self.ar.ratio_spec(0, 1);
        if i <= 0 {
            (zero, zero, zero)
        } else {
            let (cost, items, fluids) = self.raw_to(raw, i - 1);
            let (m, qty) = raw[i - 1];
            let kind = self.g.materials@[m as int].key.kind;
            if self.ar.le_spec(qty, crate::planner::tree::eps(*self.ar)) {
                (cost, items, fluids)
            } else {
                let cost1 = self.ar.plus_spec(
                    cost,
                    crate::planner::tree::norm_rate_spec(*self.ar, kind, qty),
                );
                if kind is Fluid {
                    (cost1, items, self.ar.plus_spec(fluids, qty))
                } else {
                    (cost1, self.ar.plus_spec(items, qty), fluids)
                }
            }
        }
    }

    /// The operations of the first `i` steps, added up.
    pub open spec fn ops_to(self, steps: Seq<StepText>, i: int) -> Scalar
        decreases i,
    {
        if i <= 0 {
            self.ar.ratio_spec(0, 1)
        } else {
            self.ar.plus_spec(self.ops_to(steps, i - 1), steps[i - 1].ops_per_min)
        }
    }

    /// What a plan says of chances.
    pub open spec fn chance_note(self) -> Seq<char> {
        if self.g.chances@.is_empty() {
            "概率产出无数据（JEI 不导出），按 100% 计；可用 --chances 提供覆盖表"@
        } else {
            "已应用 "@ + crate::text::decimal(self.g.chances@.dom().len())
                + " 条概率覆盖（产出按期望值计）"@
        }
    }

    /// The totals belong to the operations, the raw materials and the steps.
    pub open spec fn totals_ok(
        self,
        t: PlanTotals,
        ops: Seq<(RecipeId, Scalar)>,
        raw: Seq<(MaterialId, Scalar)>,
        steps: Seq<StepText>,
    ) -> bool {
        let sums = self.sums_to(ops, ops.len() as int);
        let (cost, items, fluids) = self.raw_to(raw, raw.len() as int);
        let w = self.an.cost.weights;
        &&& t.distinct_recipes == steps.len()
        &&& t.recipe_ops_per_min == self.ops_to(steps, steps.len() as int)
        &&& t.raw_items_per_min == items
        &&& t.raw_fluids_mb_per_min == fluids
        &&& t.estimated_cost == cost
        &&& t.total_machines == sums.machines
        &&& t.total_machines_int == sums.machines_int
        &&& t.net_eu_t == self.ar.minus_spec(sums.consume_eu_t, sums.generate_eu_t)
        &&& t.consume_eu_t == sums.consume_eu_t
        &&& t.generate_eu_t == sums.generate_eu_t
        &&& t.net_eu_per_min == sums.net_eu_per_min
        &&& t.objective_score == self.ar.plus_spec(
            self.ar.plus_spec(
                self.ar.times_spec(w.material, cost),
                self.ar.times_spec(w.eu, sums.net_eu_per_min),
            ),
            self.ar.times_spec(w.machine, sums.machines),
        )
    }

    /// `plan` is what the operations, raw materials and by-products come to.
    pub open spec fn assembles(
        self,
        target: MaterialId,
        rate_per_min: Scalar,
        mode: Seq<char>,
        ops: Seq<(RecipeId, Scalar)>,
        raw: Seq<(MaterialId, Scalar)>,
        byproducts: Seq<(MaterialId, Scalar)>,
        notes: Seq<Seq<char>>,
        plan: Plan,
    ) -> bool {
        let steps = self.steps_to(ops, ops.len() as int);
        let raws = self.entries_to(raw, raw.len() as int);
        let bys = self.entries_to(byproducts, byproducts.len() as int);
        &&& plan.target@ == self.g.dto(target)
        &&& plan.rate_per_min == rate_per_min
        &&& plan.mode@ == mode
        &&& crate::order::sorted_by(
            steps,
            step_order(*self.ar, steps),
            crate::plan::step_texts(plan.recipes@),
        )
        &&& crate::order::sorted_by(
            raws,
            entry_order(*self.ar, raws),
            crate::plan::entry_texts(plan.raw_materials@),
        )
        &&& crate::order::sorted_by(
            bys,
            entry_order(*self.ar, bys),
            crate::plan::entry_texts(plan.byproducts@),
        )
        &&& self.totals_ok(plan.totals, ops, raw, crate::plan::step_texts(plan.recipes@))
        &&& crate::intern::texts(plan.notes@) == notes.push(self.chance_note())
    }
}

/// The quantity of `m` among the candidates of a slot.
fn find_among(alts: &Vec<(MaterialId, u64)>, m: MaterialId) -> (r: Option<u64>)
    ensures
        r == crate::util::qty_among(alts@, m),
        r is Some ==> exists|i: int| 0 <= i < alts@.len() && (#[trigger] alts@[i]).0 == m,
{
    let mut a: usize = 0;
    assert(alts@.skip(0) =~= alts@);
    while a < alts.len()
        invariant
            a <= alts@.len(),
            crate::util::qty_among(alts@, m) == crate::util::qty_among(alts@.skip(a as int), m),
        decreases alts@.len() - a,
    {
        let (x, q): (u32, u64) = alts[a];
        assert(alts@.skip(a as int).drop_first() =~= alts@.skip(a + 1));
        if x == m {
            assert(alts@[a as int].0 == m);
            return Some(q);
        }
        a += 1;
    }
    None
}

impl<'a, A: Arithmetic> Assembly<'a, A> {
    fn find_input(&self, rid: RecipeId, s: usize) -> (r: Option<(MaterialId, u64)>)
        requires
            self.ok(),
            rid < self.g.r_count(),
            s < self.g.recipes@[rid as int].inputs@.len(),
        ensures
            r == self.input(rid, s as int),
            r matches Some((m, _)) ==> m < self.g.m_count(),
    {
        broadcast use vstd::std_specs::hash::group_hash_axioms;

        let slot = &self.g.recipe(rid).inputs[s];
        assert(crate::graph::slot_ok(*slot, self.g.m_count()));
        let chosen: Option<MaterialId> = match self.alts {
            Some(map) => match map.get(&rid) {
                Some(picks) => if s < picks.len() {
                    Some(picks[s])
                } else {
                    None
                },
                None => None,
            },
            None => None,
        };
        if let Some(m) = chosen {
            if let Some(q) = find_among(&slot.alts, m) {
                return Some((m, q));
            }
        }
        cheapest_alt(
            self.ar,
            self.g,
            &self.an.cost.unit_cost,
            Some(&self.an.cost.cyclic),
            slot,
        )
    }

    fn list_inputs(&self, rid: RecipeId, op: Scalar) -> (r: Vec<PlanEntry>)
        requires
            self.ok(),
            rid < self.g.r_count(),
        ensures
            crate::plan::entry_texts(r@) == self.inputs_to(
                rid,
                op,
                self.g.recipes@[rid as int].inputs@.len() as int,
            ),
    {
        let slots = &self.g.recipe(rid).inputs;
        let mut r: Vec<PlanEntry> = Vec::new();
        assert(crate::plan::entry_texts(r@) =~= self.inputs_to(rid, op, 0));
        let mut s: usize = 0;
        while s < slots.len()
            invariant
                s <= slots@.len(),
                self.ok(),
                rid < self.g.r_count(),
                slots@ == self.g.recipes@[rid as int].inputs@,
                crate::plan::entry_texts(r@) == self.inputs_to(rid, op, s as int),
            decreases slots@.len() - s,
        {
            let ghost before = r@;
            if let Some((m, q)) = self.find_input(rid, s) {
                let e = PlanEntry {
                    material: self.g.material_dto(m),
                    rate_per_min: self.ar.times(op, self.ar.ratio(q, 1)),
                    chance: None,
                };
                let ghost text = e@;
                r.push(e);
                assert(crate::plan::entry_texts(r@) =~= crate::plan::entry_texts(before).push(text));
            }
            s += 1;
        }
        r
    }

    fn list_outputs(&self, rid: RecipeId, op: Scalar) -> (r: Vec<PlanEntry>)
        requires
            self.ok(),
            rid < self.g.r_count(),
        ensures
            crate::plan::entry_texts(r@) == self.outputs_to(
                rid,
                op,
                self.g.recipes@[rid as int].outputs@.len() as int,
            ),
    {
        let ar = self.ar;
        let slots = &self.g.recipe(rid).outputs;
        let mut r: Vec<PlanEntry> = Vec::new();
        assert(crate::plan::entry_texts(r@) =~= self.outputs_to(rid, op, 0));
        let mut s: usize = 0;
        while s < slots.len()
            invariant
                s <= slots@.len(),
                self.ok(),
                ar == self.ar,
                rid < self.g.r_count(),
                slots@ == self.g.recipes@[rid as int].outputs@,
                crate::plan::entry_texts(r@) == self.outputs_to(rid, op, s as int),
            decreases slots@.len() - s,
        {
            let ghost before = r@;
            assert(crate::graph::slot_ok(slots@[s as int], self.g.m_count()));
            if let Some((m, q)) = slots[s].primary() {
                assert(slots@[s as int].alts@[0].0 < self.g.m_count());
                let chance = self.g.output_chance(ar, rid, m);
                let certain = ar.minus(ar.ratio(1, 1), ar.ratio(1, 1_000_000_000));
                let e = PlanEntry {
                    material: self.g.material_dto(m),
                    rate_per_min: ar.times(ar.times(op, ar.ratio(q, 1)), chance),
                    chance: if ar.lt(chance, certain) {
                        Some(chance)
                    } else {
                        None
                    },
                };
                let ghost text = e@;
                r.push(e);
                assert(crate::plan::entry_texts(r@) =~= crate::plan::entry_texts(before).push(text));
            }
            s += 1;
        }
        r
    }

    fn count_machines(&self, gt: &GtRecipeInfo, op: Scalar) -> (r: Scalar)
        ensures
            r == self.machines(*gt, op),
    {
        if gt.duration_ticks > 0 {
            self.ar.over(
                self.ar.times(op, self.ar.ratio(gt.duration_ticks as u64, 1)),
                self.ar.ratio(1200, 1),
            )
        } else {
            self.ar.ratio(0, 1)
        }
    }

    fn make_step(&self, rid: RecipeId, op: Scalar) -> (r: PlannedRecipe)
        requires
            self.ok(),
            rid < self.g.r_count(),
        ensures
            r@ == self.step(rid, op),
    {
        let node = self.g.recipe(rid);
        let cat = self.g.category(node.category);
        let inputs = self.list_inputs(rid, op);
        let outputs = self.list_outputs(rid, op);
        let recipe = self.g.recipe_full_id(rid);
        match &node.gt {
            Some(gt) => {
                let n = self.count_machines(gt, op);
                PlannedRecipe {
                    recipe,
                    category: cat.ty.clone(),
                    category_title: cat.title.clone(),
                    ops_per_min: op,
                    machine_count: Some(n),
                    machine_count_int: Some(self.ar.ceil(n)),
                    eut: Some(gt.total_eu_t),
                    tier: copy_option(&gt.tier),
                    eu_per_min: Some(self.ar.times(op, gt.total_eu)),
                    inputs,
                    outputs,
                }
            },
            None => PlannedRecipe {
                recipe,
                category: cat.ty.clone(),
                category_title: cat.title.clone(),
                ops_per_min: op,
                machine_count: None,
                machine_count_int: None,
                eut: None,
                tier: None,
                eu_per_min: None,
                inputs,
                outputs,
            },
        }
    }

    fn count(&self, t: Sums, rid: RecipeId, op: Scalar) -> (r: Sums)
        requires
            rid < self.g.r_count(),
        ensures
            r == self.counted(t, rid, op),
    {
        let ar = self.ar;
        match &self.g.recipe(rid).gt {
            Some(gt) => {
                let n = self.count_machines(gt, op);
                let eu = ar.times(op, gt.total_eu);
                if gt.consumes_energy() {
                    Sums {
                        machines: ar.plus(t.machines, n),
                        machines_int: add_capped(t.machines_int, ar.ceil(n)),
                        consume_eu_t: ar.plus(t.consume_eu_t, ar.times(n, gt.total_eu_t)),
                        generate_eu_t: t.generate_eu_t,
                        net_eu_per_min: ar.plus(t.net_eu_per_min, eu),
                    }
                } else if gt.generates_energy() {
                    Sums {
                        machines: ar.plus(t.machines, n),
                        machines_int: add_capped(t.machines_int, ar.ceil(n)),
                        consume_eu_t: t.consume_eu_t,
                        generate_eu_t: ar.plus(t.generate_eu_t, ar.times(n, gt.total_eu_t)),
                        net_eu_per_min: ar.minus(t.net_eu_per_min, eu),
                    }
                } else {
                    t
                }
            },
            None => t,
        }
    }

    fn list_entries(&self, list: &Vec<(MaterialId, Scalar)>) -> (r: Vec<PlanEntry>)
        requires
            self.ok(),
            forall|i: int| 0 <= i < list@.len() ==> (#[trigger] list@[i]).0 < self.g.m_count(),
        ensures
            crate::plan::entry_texts(r@) == self.entries_to(list@, list@.len() as int),
    {
        let eps = self.ar.ratio(1, 1_000_000_000);
        let mut r: Vec<PlanEntry> = Vec::new();
        assert(crate::plan::entry_texts(r@) =~= self.entries_to(list@, 0));
        let mut i: usize = 0;
        while i < list.len()
            invariant
                i <= list@.len(),
                self.ok(),
                eps == crate::planner::tree::eps(*self.ar),
                forall|i: int| 0 <= i < list@.len() ==> (#[trigger] list@[i]).0 < self.g.m_count(),
                crate::plan::entry_texts(r@) == self.entries_to(list@, i as int),
            decreases list@.len() - i,
        {
            let (m, qty): (u32, Scalar) = list[i];
            let ghost before = r@;
            if !self.ar.le(qty, eps) {
                let e = PlanEntry {
                    material: self.g.material_dto(m),
                    rate_per_min: qty,
                    chance: None,
                };
                let ghost text = e@;
                r.push(e);
                assert(crate::plan::entry_texts(r@) =~= crate::plan::entry_texts(before).push(text));
            }
            i += 1;
        }
        r
    }

    fn count_raw(&self, raw: &Vec<(MaterialId, Scalar)>) -> (r: (Scalar, Scalar, Scalar))
        requires
            forall|i: int| 0 <= i < raw@.len() ==> (#[trigger] raw@[i]).0 < self.g.m_count(),
        ensures
            r == self.raw_to(raw@, raw@.len() as int),
    {
        let ar = self.ar;
        let eps = ar.ratio(1, 1_000_000_000);
        let zero = ar.ratio(0, 1);
        let mut r = (zero, zero, zero);
        let mut i: usize = 0;
        while i < raw.len()
            invariant
                i <= raw@.len(),
                ar == self.ar,
                eps == crate::planner::tree::eps(*self.ar),
                forall|i: int| 0 <= i < raw@.len() ==> (#[trigger] raw@[i]).0 < self.g.m_count(),
                r == self.raw_to(raw@, i as int),
            decreases raw@.len() - i,
        {
            let (m, qty): (u32, Scalar) = raw[i];
            if !ar.le(qty, eps) {
                let kind = self.g.material(m).key.kind;
                let cost = ar.plus(r.0, norm_rate(ar, kind, qty));
                if kind.is_fluid() {
                    r = (cost, r.1, ar.plus(r.2, qty));
                } else {
                    r = (cost, ar.plus(r.1, qty), r.2);
                }
            }
            i += 1;
        }
        r
    }

    fn note_chances(&self) -> (r: String)
        requires
            self.ok(),
        ensures
            r@ == self.chance_note(),
    {
        if self.g.chances.is_empty() {
            "概率产出无数据（JEI 不导出），按 100% 计；可用 --chances 提供覆盖表".to_owned()
        } else {
            joined(
                joined("已应用 ", decimal_string(self.g.chances.len() as u64).as_str()).as_str(),
                " 条概率覆盖（产出按期望值计）",
            )
        }
    }

    /// The plan that operations, raw materials and by-products come to.
    pub fn assemble(
        &self,
        target: MaterialId,
        rate_per_min: Scalar,
        mode: &str,
        ops: &Vec<(RecipeId, Scalar)>,
        raw: &Vec<(MaterialId, Scalar)>,
        byproducts: &Vec<(MaterialId, Scalar)>,
        metrics: PlanMetrics,
        notes: Vec<String>,
        elapsed_ms: Scalar,
    ) -> (plan: Plan)
        requires
            self.ok(),
            target < self.g.m_count(),
            forall|i: int| 0 <= i < ops@.len() ==> (#[trigger] ops@[i]).0 < self.g.r_count(),
            forall|i: int| 0 <= i < raw@.len() ==> (#[trigger] raw@[i]).0 < self.g.m_count(),
            forall|i: int|
                0 <= i < byproducts@.len() ==> (#[trigger] byproducts@[i]).0 < self.g.m_count(),
        ensures
            self.assembles(
                target,
                rate_per_min,
                mode@,
                ops@,
                raw@,
                byproducts@,
                crate::intern::texts(notes@),
                plan,
            ),
            plan.metrics == (PlanMetrics { search_ms: elapsed_ms, ..metrics }),
            plan.elapsed_ms == elapsed_ms,
    {
        let ar = self.ar;
        let ghost given = crate::intern::texts(notes@);
        let mut notes = notes;
        notes.push(self.note_chances());
        assert(crate::intern::texts(notes@) =~= given.push(self.chance_note()));
        let eps = ar.ratio(1, 1_000_000_000);
        let zero = ar.ratio(0, 1);
        let mut planned: Vec<PlannedRecipe> = Vec::new();
        let mut sums = Sums {
            machines: zero,
            machines_int: 0,
            consume_eu_t: zero,
            generate_eu_t: zero,
            net_eu_per_min: zero,
        };
        assert(crate::plan::step_texts(planned@) =~= self.steps_to(ops@, 0));
        let mut i: usize = 0;
        while i < ops.len()
            invariant
                i <= ops@.len(),
                self.ok(),
                ar == self.ar,
                eps == crate::planner::tree::eps(*self.ar),
                forall|i: int| 0 <= i < ops@.len() ==> (#[trigger] ops@[i]).0 < self.g.r_count(),
                crate::plan::step_texts(planned@) == self.steps_to(ops@, i as int),
                sums == self.sums_to(ops@, i as int),
            decreases ops@.len() - i,
        {
            let (rid, op): (u32, Scalar) = ops[i];
            let ghost before = planned@;
            if !ar.le(op, eps) {
                sums = self.count(sums, rid, op);
                let step = self.make_step(rid, op);
                let ghost text = step@;
                planned.push(step);
                assert(crate::plan::step_texts(planned@) =~= crate::plan::step_texts(before).push(
                    text,
                ));
            }
            i += 1;
        }
        let recipes = sort_steps(ar, planned);
        let ghost steps = crate::plan::step_texts(recipes@);
        let raw_materials = sort_entries(ar, self.list_entries(raw));
        let byproduct_entries = sort_entries(ar, self.list_entries(byproducts));
        let (cost, items, fluids) = self.count_raw(raw);
        let mut ops_total = zero;
        let mut i: usize = 0;
        while i < recipes.len()
            invariant
                i <= recipes@.len(),
                ar == self.ar,
                steps == crate::plan::step_texts(recipes@),
                ops_total == self.ops_to(steps, i as int),
            decreases recipes@.len() - i,
        {
            assert(steps[i as int] == recipes@[i as int]@);
            ops_total = ar.plus(ops_total, recipes[i].ops_per_min);
            i += 1;
        }
        let w = self.an.cost.weights;
        let totals = PlanTotals {
            distinct_recipes: recipes.len(),
            recipe_ops_per_min: ops_total,
            raw_items_per_min: items,
            raw_fluids_mb_per_min: fluids,
            estimated_cost: cost,
            total_machines: sums.machines,
            total_machines_int: sums.machines_int,
            net_eu_t: ar.minus(sums.consume_eu_t, sums.generate_eu_t),
            consume_eu_t: sums.consume_eu_t,
            generate_eu_t: sums.generate_eu_t,
            net_eu_per_min: sums.net_eu_per_min,
            objective_score: ar.plus(
                ar.plus(ar.times(w.material, cost), ar.times(w.eu, sums.net_eu_per_min)),
                ar.times(w.machine, sums.machines),
            ),
        };
        let metrics = PlanMetrics { search_ms: elapsed_ms, ..metrics };
        Plan {
            target: self.g.material_dto(target),
            rate_per_min,
            mode: mode.to_owned(),
            recipes,
            raw_materials,
            byproducts: byproduct_entries,
            totals,
            metrics,
            notes,
            elapsed_ms,
        }
    }
}

} // verus!

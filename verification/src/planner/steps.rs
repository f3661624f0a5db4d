//! What the steps and totals of a plan mean, in parts of a unit.
use vstd::prelude::*;

use crate::model::{EnergyIo, GtRecipeInfo, MaterialId, RecipeId, Slot};
use crate::plan::{EntryText, Plan, PlanTotals, StepText};
use crate::planner::assemble::Assembly;
use crate::program::{total, total_step};
use crate::scalar::{Arithmetic, Scalar};
use crate::scale::{floors, Scale};

verus! {

/// The machines have just the time for the operations: a machine works for 1200
/// ticks in a minute, and an operation takes `ticks` of them.
pub open spec fn have_the_time(w: Scale, machines: Scalar, ops: Scalar, ticks: u32) -> bool {
    floors((w.of)(machines), (w.of)(ops) * ticks, 1200)
}

/// `count` machines are enough, and one fewer are not.
pub open spec fn rounds_up(w: Scale, count: u64, machines: Scalar) -> bool {
    &&& (w.of)(machines) <= count * w.unit
    &&& count > 0 ==> (count - 1) * w.unit < (w.of)(machines)
}

impl<'a, A: Arithmetic> Assembly<'a, A> {
    /// The numbers of a step are within range.
    #[verifier::opaque]
    pub open spec fn step_fits(self, w: Scale, rid: RecipeId, op: Scalar) -> bool {
        let r = self.g.recipes@[rid as int];
        let n = self.ar.times_spec(op, self.ar.ratio_spec(self.ticks(rid) as u64, 1));
        &&& w.amount(op)
        &&& (w.fits)(self.ar.ratio_spec(1200, 1))
        &&& (w.fits)(self.ar.ratio_spec(self.ticks(rid) as u64, 1))
        &&& (w.fits)(n)
        &&& (w.fits)(self.ar.over_spec(n, self.ar.ratio_spec(1200, 1)))
        &&& r.gt matches Some(gt) ==> w.amount(gt.total_eu) && (w.fits)(
            self.ar.times_spec(op, gt.total_eu),
        )
        &&& forall|s: int, a: int|
            #![trigger r.inputs@[s].alts@[a]]
            0 <= s < r.inputs@.len() && 0 <= a < r.inputs@[s].alts@.len() ==> self.flow_fits(
                w,
                op,
                r.inputs@[s].alts@[a].1,
            )
        &&& forall|s: int|
            0 <= s < r.outputs@.len() ==> {
                let (m, q) = (#[trigger] r.outputs@[s]).alts@[0];
                let c = self.g.output_chance_spec(*self.ar, rid, m);
                self.flow_fits(w, op, q) && w.amount(c) && (w.fits)(
                    self.ar.times_spec(
                        self.ar.times_spec(op, self.ar.ratio_spec(q, 1)),
                        c,
                    ),
                )
            }
    }

    pub open spec fn ticks(self, rid: RecipeId) -> u32 {
        match self.g.recipes@[rid as int].gt {
            Some(gt) => gt.duration_ticks,
            None => 0,
        }
    }

    pub open spec fn flow_fits(self, w: Scale, op: Scalar, q: u64) -> bool {
        (w.fits)(self.ar.ratio_spec(q, 1)) && (w.fits)(
            self.ar.times_spec(op, self.ar.ratio_spec(q, 1)),
        )
    }

    /// An input of a step: a candidate of the slot, as much of it as the operations
    /// need together.
    pub open spec fn feeds_slot(self, w: Scale, slot: Slot, op: Scalar, e: EntryText) -> bool {
        exists|a: int|
            0 <= a < slot.alts@.len() && e.material == self.g.dto((#[trigger] slot.alts@[a]).0) && (
            w.of)(e.rate_per_min) == (w.of)(op) * slot.alts@[a].1
    }

    /// An output of a step: the first candidate of the slot, as much of it as the
    /// operations give together, on the average.
    pub open spec fn comes_of_slot(
        self,
        w: Scale,
        rid: RecipeId,
        slot: Slot,
        op: Scalar,
        e: EntryText,
    ) -> bool {
        let (m, q) = slot.alts@[0];
        &&& e.material == self.g.dto(m)
        &&& floors(
            (w.of)(e.rate_per_min),
            (w.of)(op) * q * (w.of)(self.g.output_chance_spec(*self.ar, rid, m)),
            w.unit,
        )
    }

    /// A step shows what `op` operations of a recipe take and give: machines with
    /// just the time for them, the energy of all of them, and every slot.
    #[verifier::opaque]
    pub open spec fn step_means(self, w: Scale, rid: RecipeId, op: Scalar, s: StepText) -> bool {
        let r = self.g.recipes@[rid as int];
        &&& s.recipe == self.g.full_id(rid)
        &&& s.ops_per_min == op
        &&& match r.gt {
            Some(gt) => {
                &&& s.machine_count matches Some(n) && have_the_time(w, n, op, gt.duration_ticks)
                    && (s.machine_count_int matches Some(c) && rounds_up(w, c, n))
                &&& s.eut == Some(gt.total_eu_t)
                &&& s.eu_per_min matches Some(e) && floors(
                    (w.of)(e),
                    (w.of)(op) * (w.of)(gt.total_eu),
                    w.unit,
                )
            },
            None => s.machine_count is None && s.machine_count_int is None && s.eut is None
                && s.eu_per_min is None,
        }
        &&& s.inputs.len() == r.inputs@.len()
        &&& forall|k: int|
            0 <= k < s.inputs.len() ==> self.feeds_slot(w, r.inputs@[k], op, #[trigger] s.inputs[k])
        &&& s.outputs.len() == r.outputs@.len()
        &&& forall|k: int|
            0 <= k < s.outputs.len() ==> self.comes_of_slot(
                w,
                rid,
                r.outputs@[k],
                op,
                #[trigger] s.outputs[k],
            )
    }

    proof fn machines_mean(self, w: Scale, gt: GtRecipeInfo, op: Scalar)
        requires
            w.measures(*self.ar),
            w.amount(op),
            (w.fits)(self.ar.ratio_spec(1200, 1)),
            (w.fits)(self.ar.ratio_spec(gt.duration_ticks as u64, 1)),
            (w.fits)(self.ar.times_spec(op, self.ar.ratio_spec(gt.duration_ticks as u64, 1))),
            (w.fits)(
                self.ar.over_spec(
                    self.ar.times_spec(op, self.ar.ratio_spec(gt.duration_ticks as u64, 1)),
                    self.ar.ratio_spec(1200, 1),
                ),
            ),
        ensures
            w.amount(self.machines(gt, op)),
            have_the_time(w, self.machines(gt, op), op, gt.duration_ticks),
            rounds_up(w, self.ar.ceil_spec(self.machines(gt, op)), self.machines(gt, op)),
    {
        let t = gt.duration_ticks as int;
        let o = (w.of)(op);
        let u = w.unit;
        w.whole(*self.ar, 1200);
        w.whole(*self.ar, gt.duration_ticks as u64);
        w.whole(*self.ar, 0);
        let n = self.ar.times_spec(op, self.ar.ratio_spec(gt.duration_ticks as u64, 1));
        times_whole(w, *self.ar, op, gt.duration_ticks as u64);
        let m = self.ar.over_spec(n, self.ar.ratio_spec(1200, 1));
        let x = (w.of)(m);
        assert(o * t >= 0) by (nonlinear_arith)
            requires
                o >= 0,
                t >= 0,
        ;
        assert(floors(x, o * t, 1200)) by {
            assert(x * (1200 * u) <= (o * t) * u < x * (1200 * u) + 1200 * u);
            assert(x * 1200 <= o * t && o * t < x * 1200 + 1200) by (nonlinear_arith)
                requires
                    x * (1200 * u) <= (o * t) * u < x * (1200 * u) + 1200 * u,
                    u > 0,
            ;
        }
        if t == 0 {
            assert(o * t == 0) by (nonlinear_arith)
                requires
                    t == 0,
            ;
        }
        let k = self.machines(gt, op);
        let c = self.ar.ceil_spec(k) as int;
        let y = (w.of)(k);
        assert(floors(c, y + u - 1, u));
        assert(y <= c * u && (c > 0 ==> (c - 1) * u < y)) by (nonlinear_arith)
            requires
                c * u <= y + u - 1,
                y + u - 1 < c * u + u,
                u > 0,
        ;
    }

    proof fn inputs_mean(self, w: Scale, rid: RecipeId, op: Scalar, s: int)
        requires
            w.measures(*self.ar),
            self.ok(),
            rid < self.g.r_count(),
            self.step_fits(w, rid, op),
            0 <= s <= self.g.recipes@[rid as int].inputs@.len(),
        ensures
            self.inputs_to(rid, op, s).len() == s,
            forall|k: int|
                0 <= k < s ==> self.feeds_slot(
                    w,
                    self.g.recipes@[rid as int].inputs@[k],
                    op,
                    #[trigger] self.inputs_to(rid, op, s)[k],
                ),
        decreases s,
    {
        reveal(Assembly::step_fits);
        if s > 0 {
            self.inputs_mean(w, rid, op, s - 1);
            let slot = self.g.recipes@[rid as int].inputs@[s - 1];
            assert(crate::graph::slot_ok(slot, self.g.m_count()));
            self.input_is_candidate(rid, s - 1);
            let (m, q) = self.input(rid, s - 1)->0;
            let a = choose|a: int| 0 <= a < slot.alts@.len() && slot.alts@[a] == (m, q);
            assert(self.flow_fits(w, op, self.g.recipes@[rid as int].inputs@[s - 1].alts@[a].1));
            times_whole(w, *self.ar, op, q);
            let all = self.inputs_to(rid, op, s);
            assert(self.feeds_slot(w, slot, op, all[s - 1])) by {
                assert(slot.alts@[a].0 == m);
            }
            assert forall|k: int| 0 <= k < s implies self.feeds_slot(
                w,
                self.g.recipes@[rid as int].inputs@[k],
                op,
                #[trigger] all[k],
            ) by {
                if k < s - 1 {
                    assert(all[k] == self.inputs_to(rid, op, s - 1)[k]);
                }
            }
        }
    }

    /// The input of a slot is one of its candidates, with its quantity.
    pub proof fn input_is_candidate(self, rid: RecipeId, s: int)
        requires
            self.ok(),
            rid < self.g.r_count(),
            0 <= s < self.g.recipes@[rid as int].inputs@.len(),
        ensures
            self.input(rid, s) matches Some(x)
                && self.g.recipes@[rid as int].inputs@[s].alts@.contains(x),
    {
        let slot = self.g.recipes@[rid as int].inputs@[s];
        assert(crate::graph::slot_ok(slot, self.g.m_count()));
        crate::util::cheapest_is_candidate(
            *self.ar,
            *self.g,
            self.an.cost.unit_cost@,
            Some(self.an.cost.cyclic@),
            slot.alts@,
            slot.alts@.len() as int,
        );
        if let Some(m) = self.chosen_alt(rid, s) {
            among_contains(slot.alts@, m);
        }
    }

    proof fn outputs_mean(self, w: Scale, rid: RecipeId, op: Scalar, s: int)
        requires
            w.measures(*self.ar),
            self.ok(),
            rid < self.g.r_count(),
            self.step_fits(w, rid, op),
            0 <= s <= self.g.recipes@[rid as int].outputs@.len(),
        ensures
            self.outputs_to(rid, op, s).len() == s,
            forall|k: int|
                0 <= k < s ==> self.comes_of_slot(
                    w,
                    rid,
                    self.g.recipes@[rid as int].outputs@[k],
                    op,
                    #[trigger] self.outputs_to(rid, op, s)[k],
                ),
        decreases s,
    {
        reveal(Assembly::step_fits);
        if s > 0 {
            self.outputs_mean(w, rid, op, s - 1);
            let slot = self.g.recipes@[rid as int].outputs@[s - 1];
            assert(crate::graph::slot_ok(slot, self.g.m_count()));
            let (m, q) = slot.alts@[0];
            assert(self.flow_fits(w, op, q));
            times_whole(w, *self.ar, op, q);
            let all = self.outputs_to(rid, op, s);
            assert(self.comes_of_slot(w, rid, slot, op, all[s - 1]));
            assert forall|k: int| 0 <= k < s implies self.comes_of_slot(
                w,
                rid,
                self.g.recipes@[rid as int].outputs@[k],
                op,
                #[trigger] all[k],
            ) by {
                if k < s - 1 {
                    assert(all[k] == self.outputs_to(rid, op, s - 1)[k]);
                }
            }
        }
    }

    /// A step means what it shows.
    pub proof fn steps_mean(self, w: Scale, rid: RecipeId, op: Scalar)
        requires
            w.measures(*self.ar),
            self.ok(),
            rid < self.g.r_count(),
            self.step_fits(w, rid, op),
        ensures
            self.step_means(w, rid, op, self.step(rid, op)),
    {
        reveal(Assembly::step_fits);
        reveal(Assembly::step_means);
        let r = self.g.recipes@[rid as int];
        if let Some(gt) = r.gt {
            self.machines_mean(w, gt, op);
        }
        self.inputs_mean(w, rid, op, r.inputs@.len() as int);
        self.outputs_mean(w, rid, op, r.outputs@.len() as int);
    }

    /// In a plan every operation that is more than nothing is a step, which shows
    /// what it takes and gives, and there is no other step. The greatest rates come
    /// first.
    pub proof fn plan_shows_operations(
        self,
        w: Scale,
        target: MaterialId,
        rate_per_min: Scalar,
        mode: Seq<char>,
        ops: Seq<(RecipeId, Scalar)>,
        raw: Seq<(MaterialId, Scalar)>,
        byproducts: Seq<(MaterialId, Scalar)>,
        notes: Seq<Seq<char>>,
        plan: Plan,
    )
        requires
            w.measures(*self.ar),
            self.ok(),
            forall|i: int|
                0 <= i < ops.len() ==> (#[trigger] ops[i]).0 < self.g.r_count() && self.step_fits(
                    w,
                    ops[i].0,
                    ops[i].1,
                ) && w.amount(ops[i].1) && (w.of)(ops[i].1) > 0,
            self.assembles(target, rate_per_min, mode, ops, raw, byproducts, notes, plan),
        ensures
            ({
                let shown = crate::plan::step_texts(plan.recipes@);
                &&& shown.len() == ops.len()
                &&& plan.totals.distinct_recipes == ops.len()
                &&& forall|i: int|
                    0 <= i < ops.len() ==> self.shown_in(w, shown, (#[trigger] ops[i]).0, ops[i].1)
                &&& forall|j: int|
                    0 <= j < shown.len() ==> self.stands_for_one(w, ops, #[trigger] shown[j])
                &&& forall|j: int, k: int|
                    0 <= j < k < shown.len() ==> (w.of)((#[trigger] shown[k]).ops_per_min) <= (w.of)(
                        (#[trigger] shown[j]).ops_per_min,
                    )
            }),
    {
        let n = ops.len() as int;
        let steps = self.steps_to(ops, n);
        let shown = crate::plan::step_texts(plan.recipes@);
        self.all_steps(w, ops, n);
        crate::planner::assemble::step_order_orders(*self.ar, steps);
        assert forall|k: int| 0 <= k < n implies self.step_means(
            w,
            ops[k].0,
            ops[k].1,
            #[trigger] steps[k],
        ) && (w.fits)(steps[k].ops_per_min) by {
            assert(w.amount(ops[k].1));
            self.steps_mean(w, ops[k].0, ops[k].1);
        }
        self.listing(w, ops, steps, shown);
    }

    proof fn listing(
        self,
        w: Scale,
        ops: Seq<(RecipeId, Scalar)>,
        steps: Seq<StepText>,
        shown: Seq<StepText>,
    )
        requires
            w.measures(*self.ar),
            steps.len() == ops.len(),
            shown.len() <= usize::MAX,
            forall|k: int|
                0 <= k < ops.len() ==> self.step_means(w, ops[k].0, ops[k].1, #[trigger] steps[k])
                    && (w.fits)(steps[k].ops_per_min),
            crate::order::orders(
                crate::planner::assemble::step_order(*self.ar, steps),
                steps.len() as int,
            ),
            crate::order::sorted_by(
                steps,
                crate::planner::assemble::step_order(*self.ar, steps),
                shown,
            ),
        ensures
            shown.len() == ops.len(),
            forall|i: int|
                0 <= i < ops.len() ==> self.shown_in(w, shown, (#[trigger] ops[i]).0, ops[i].1),
            forall|j: int|
                0 <= j < shown.len() ==> self.stands_for_one(w, ops, #[trigger] shown[j]),
            forall|j: int, k: int|
                0 <= j < k < shown.len() ==> (w.of)((#[trigger] shown[k]).ops_per_min) <= (w.of)(
                    (#[trigger] shown[j]).ops_per_min,
                ),
    {
        let before = crate::planner::assemble::step_order(*self.ar, steps);
        assert(shown.len() == steps.len());
        crate::order::sorted_by_permutes(steps, before, shown);
        assert forall|i: int| 0 <= i < ops.len() implies self.shown_in(
            w,
            shown,
            (#[trigger] ops[i]).0,
            ops[i].1,
        ) by {
            assert(shown.contains(steps[i]));
        }
        assert forall|j: int| 0 <= j < shown.len() implies self.stands_for_one(
            w,
            ops,
            #[trigger] shown[j],
        ) by {
            let i = choose|i: int| 0 <= i < steps.len() && steps[i] == shown[j];
            assert(self.step_means(w, ops[i].0, ops[i].1, steps[i]));
        }
        assert forall|j: int, k: int| 0 <= j < k < shown.len() implies (w.of)(
            (#[trigger] shown[k]).ops_per_min,
        ) <= (w.of)((#[trigger] shown[j]).ops_per_min) by {
            assert(crate::order::comes_ahead(steps, before, shown[j], shown[k]));
            let (a, b) = choose|a: int, b: int|
                0 <= a < steps.len() && 0 <= b < steps.len() && #[trigger] steps[a] == shown[j]
                    && #[trigger] steps[b] == shown[k] && crate::order::ahead(before, a, b);
            falls(w, *self.ar, steps, a, b);
        }
    }

    /// The operation is one of the steps.
    pub open spec fn shown_in(self, w: Scale, shown: Seq<StepText>, rid: RecipeId, op: Scalar) -> bool {
        exists|j: int| 0 <= j < shown.len() && self.step_means(w, rid, op, #[trigger] shown[j])
    }

    /// The step is one of the operations.
    pub open spec fn stands_for_one(self, w: Scale, ops: Seq<(RecipeId, Scalar)>, s: StepText) -> bool {
        exists|i: int|
            0 <= i < ops.len() && self.step_means(w, (#[trigger] ops[i]).0, ops[i].1, s)
    }

    proof fn all_steps(self, w: Scale, ops: Seq<(RecipeId, Scalar)>, i: int)
        requires
            w.measures(*self.ar),
            0 <= i <= ops.len(),
            forall|k: int|
                0 <= k < ops.len() ==> w.amount((#[trigger] ops[k]).1) && (w.of)(ops[k].1) > 0,
        ensures
            self.steps_to(ops, i).len() == i,
            forall|k: int|
                0 <= k < i ==> #[trigger] self.steps_to(ops, i)[k] == self.step(ops[k].0, ops[k].1),
        decreases i,
    {
        if i > 0 {
            self.all_steps(w, ops, i - 1);
            assert(w.amount(ops[i - 1].1));
        }
    }
}

impl<'a, A: Arithmetic> Assembly<'a, A> {
    /// The machines that work on an operation, where it draws or gives energy.
    pub open spec fn machine_parts(self, w: Scale, o: (RecipeId, Scalar)) -> int {
        match self.g.recipes@[o.0 as int].gt {
            Some(gt) => if gt.energy_io is Some {
                (w.of)(self.step(o.0, o.1).machine_count->0)
            } else {
                0
            },
            None => 0,
        }
    }

    /// The power of the machines that work on an operation, where its energy goes the
    /// given way.
    pub open spec fn power_parts(self, w: Scale, o: (RecipeId, Scalar), io: EnergyIo) -> int {
        match self.g.recipes@[o.0 as int].gt {
            Some(gt) => if gt.energy_io == Some(io) {
                (w.of)(
                    self.ar.times_spec(
                        self.step(o.0, o.1).machine_count->0,
                        self.step(o.0, o.1).eut->0,
                    ),
                )
            } else {
                0
            },
            None => 0,
        }
    }

    /// The energy of an operation in a minute: positive where it is drawn, negative
    /// where it is given.
    pub open spec fn energy_parts(self, w: Scale, o: (RecipeId, Scalar)) -> int {
        match self.g.recipes@[o.0 as int].gt {
            Some(gt) => match gt.energy_io {
                Some(EnergyIo::In) => (w.of)(self.step(o.0, o.1).eu_per_min->0),
                Some(EnergyIo::Out) => -(w.of)(self.step(o.0, o.1).eu_per_min->0),
                None => 0,
            },
            None => 0,
        }
    }

    /// The numbers of a step's machines and energy are within range.
    pub open spec fn power_fits(self, w: Scale, o: (RecipeId, Scalar)) -> bool {
        &&& w.amount(o.1) && (w.of)(o.1) > 0
        &&& self.g.recipes@[o.0 as int].gt matches Some(gt) ==> (w.fits)(self.machines(gt, o.1))
            && (w.fits)(self.ar.times_spec(self.machines(gt, o.1), gt.total_eu_t)) && (w.fits)(
            self.ar.times_spec(o.1, gt.total_eu),
        )
    }

    /// Sums over steps are within range.
    pub open spec fn sums_fit(self, w: Scale, ops: Seq<(RecipeId, Scalar)>) -> bool {
        &&& forall|i: int| 0 <= i < ops.len() ==> self.power_fits(w, #[trigger] ops[i])
        &&& forall|i: int|
            0 <= i <= ops.len() ==> {
                let t = #[trigger] self.sums_to(ops, i);
                (w.fits)(t.machines) && (w.fits)(t.consume_eu_t) && (w.fits)(t.generate_eu_t)
                    && (w.fits)(t.net_eu_per_min)
            }
    }

    proof fn sums_are_sums(self, w: Scale, ops: Seq<(RecipeId, Scalar)>, i: int)
        requires
            w.measures(*self.ar),
            self.sums_fit(w, ops),
            0 <= i <= ops.len(),
        ensures
            ({
                let t = self.sums_to(ops, i);
                &&& (w.of)(t.machines) == total(i as nat, |k: int| self.machine_parts(w, ops[k]))
                &&& (w.of)(t.consume_eu_t) == total(
                    i as nat,
                    |k: int| self.power_parts(w, ops[k], EnergyIo::In),
                )
                &&& (w.of)(t.generate_eu_t) == total(
                    i as nat,
                    |k: int| self.power_parts(w, ops[k], EnergyIo::Out),
                )
                &&& (w.of)(t.net_eu_per_min) == total(
                    i as nat,
                    |k: int| self.energy_parts(w, ops[k]),
                )
            }),
        decreases i,
    {
        let f = |k: int| self.machine_parts(w, ops[k]);
        let a = |k: int| self.power_parts(w, ops[k], EnergyIo::In);
        let b = |k: int| self.power_parts(w, ops[k], EnergyIo::Out);
        let e = |k: int| self.energy_parts(w, ops[k]);
        if i == 0 {
            w.whole(*self.ar, 0);
        } else {
            self.sums_are_sums(w, ops, i - 1);
            total_step(i as nat, f);
            total_step(i as nat, a);
            total_step(i as nat, b);
            total_step(i as nat, e);
            let rest = self.sums_to(ops, i - 1);
            let now = self.sums_to(ops, i);
            let (rid, op) = ops[i - 1];
            assert(self.power_fits(w, ops[i - 1]));
            assert(!self.ar.le_spec(op, crate::planner::tree::eps(*self.ar)));
            assert(now == self.counted(rest, rid, op));
            assert((w.fits)(now.machines) && (w.fits)(now.net_eu_per_min));
            if let Some(gt) = self.g.recipes@[rid as int].gt {
                assert(self.step(rid, op).machine_count == Some(self.machines(gt, op)));
                assert(self.step(rid, op).eut == Some(gt.total_eu_t));
                assert(self.step(rid, op).eu_per_min == Some(self.ar.times_spec(op, gt.total_eu)));
            }
        }
    }

    /// The totals of a plan are sums over its steps: machines, power drawn and given,
    /// and energy in a minute. The net power is what is drawn less what is given.
    pub proof fn totals_sum_steps(
        self,
        w: Scale,
        t: PlanTotals,
        ops: Seq<(RecipeId, Scalar)>,
        raw: Seq<(MaterialId, Scalar)>,
        steps: Seq<StepText>,
    )
        requires
            w.measures(*self.ar),
            self.sums_fit(w, ops),
            (w.fits)(t.net_eu_t),
            self.totals_ok(t, ops, raw, steps),
        ensures
            (w.of)(t.total_machines) == total(ops.len(), |k: int| self.machine_parts(w, ops[k])),
            (w.of)(t.consume_eu_t) == total(
                ops.len(),
                |k: int| self.power_parts(w, ops[k], EnergyIo::In),
            ),
            (w.of)(t.generate_eu_t) == total(
                ops.len(),
                |k: int| self.power_parts(w, ops[k], EnergyIo::Out),
            ),
            (w.of)(t.net_eu_t) == (w.of)(t.consume_eu_t) - (w.of)(t.generate_eu_t),
            (w.of)(t.net_eu_per_min) == total(ops.len(), |k: int| self.energy_parts(w, ops[k])),
    {
        self.sums_are_sums(w, ops, ops.len() as int);
        let s = self.sums_to(ops, ops.len() as int);
        assert((w.fits)(s.consume_eu_t) && (w.fits)(s.generate_eu_t));
    }

    /// The whole machines of a plan are the whole machines of its steps together, or
    /// the greatest number where there are more.
    pub proof fn whole_machines_sum(self, w: Scale, ops: Seq<(RecipeId, Scalar)>, i: int)
        requires
            w.measures(*self.ar),
            0 <= i <= ops.len(),
            forall|k: int| 0 <= k < ops.len() ==> w.amount((#[trigger] ops[k]).1) && (w.of)(ops[k].1) > 0,
        ensures
            ({
                let n = total(i as nat, self.whole_parts(ops));
                self.sums_to(ops, i).machines_int == if n < u64::MAX {
                    n
                } else {
                    u64::MAX as int
                }
            }),
            total(i as nat, self.whole_parts(ops)) >= 0,
        decreases i,
    {
        if i > 0 {
            self.whole_machines_sum(w, ops, i - 1);
            total_step(i as nat, self.whole_parts(ops));
            assert(w.amount(ops[i - 1].1));
        }
    }

    pub open spec fn whole_parts(self, ops: Seq<(RecipeId, Scalar)>) -> spec_fn(int) -> int {
        |k: int|
            match self.g.recipes@[ops[k].0 as int].gt {
                Some(gt) => if gt.energy_io is Some {
                    self.step(ops[k].0, ops[k].1).machine_count_int->0 as int
                } else {
                    0
                },
                None => 0,
            }
    }

    /// What a raw material counts for in comparable units: an item as one, a fluid as
    /// a thousandth.
    pub open spec fn raw_counts(self, w: Scale, m: MaterialId, qty: int, n: int) -> bool {
        if self.g.materials@[m as int].key.kind is Fluid {
            floors(n, qty, 1000)
        } else {
            n == qty
        }
    }

    pub open spec fn raw_fits(self, w: Scale, raw: Seq<(MaterialId, Scalar)>) -> bool {
        &&& (w.fits)(self.ar.ratio_spec(1000, 1))
        &&& forall|i: int|
            0 <= i < raw.len() ==> w.amount((#[trigger] raw[i]).1) && (w.of)(raw[i].1) > 0 && (
            w.fits)(
                crate::planner::tree::norm_rate_spec(
                    *self.ar,
                    self.g.materials@[raw[i].0 as int].key.kind,
                    raw[i].1,
                ),
            )
        &&& forall|i: int|
            0 <= i <= raw.len() ==> {
                let t = #[trigger] self.raw_to(raw, i);
                (w.fits)(t.0) && (w.fits)(t.1) && (w.fits)(t.2)
            }
    }

    /// The raw materials of a plan are summed up by kind, and their cost in comparable
    /// units.
    pub proof fn raw_is_summed(self, w: Scale, raw: Seq<(MaterialId, Scalar)>, i: int, n: spec_fn(int) -> int)
        requires
            w.measures(*self.ar),
            self.raw_fits(w, raw),
            0 <= i <= raw.len(),
            forall|k: int|
                0 <= k < raw.len() ==> self.raw_counts(w, raw[k].0, (w.of)(raw[k].1), #[trigger] n(k)),
        ensures
            ({
                let (cost, items, fluids) = self.raw_to(raw, i);
                &&& (w.of)(cost) == total(i as nat, n)
                &&& (w.of)(items) == total(i as nat, self.raw_parts(w, raw, false))
                &&& (w.of)(fluids) == total(i as nat, self.raw_parts(w, raw, true))
            }),
        decreases i,
    {
        if i == 0 {
            w.whole(*self.ar, 0);
        } else {
            self.raw_is_summed(w, raw, i - 1, n);
            total_step(i as nat, n);
            total_step(i as nat, self.raw_parts(w, raw, false));
            total_step(i as nat, self.raw_parts(w, raw, true));
            let (m, qty) = raw[i - 1];
            assert(w.amount(raw[i - 1].1));
            let before = self.raw_to(raw, i - 1);
            let now = self.raw_to(raw, i);
            assert((w.fits)(before.0) && (w.fits)(now.0));
            let kind = self.g.materials@[m as int].key.kind;
            let c = crate::planner::tree::norm_rate_spec(*self.ar, kind, qty);
            assert(self.raw_counts(w, raw[i - 1].0, (w.of)(raw[i - 1].1), n(i - 1)));
            assert((w.of)(c) == n(i - 1)) by {
                if kind is Fluid {
                    w.whole(*self.ar, 1000);
                    let x = (w.of)(c);
                    let y = (w.of)(qty);
                    let u = w.unit;
                    assert(x * (1000 * u) <= y * u < x * (1000 * u) + 1000 * u);
                    assert(x * 1000 <= y && y < x * 1000 + 1000) by (nonlinear_arith)
                        requires
                            x * (1000 * u) <= y * u < x * (1000 * u) + 1000 * u,
                            u > 0,
                    ;
                }
            }
        }
    }

    pub open spec fn raw_parts(self, w: Scale, raw: Seq<(MaterialId, Scalar)>, fluids: bool) -> spec_fn(
        int,
    ) -> int {
        |k: int|
            if (self.g.materials@[raw[k].0 as int].key.kind is Fluid) == fluids {
                (w.of)(raw[k].1)
            } else {
                0
            }
    }

    /// The objective weighs the cost of the raw materials, the net energy and the
    /// machines, each by its weight.
    pub proof fn objective_weighs(
        self,
        w: Scale,
        t: PlanTotals,
        ops: Seq<(RecipeId, Scalar)>,
        raw: Seq<(MaterialId, Scalar)>,
        steps: Seq<StepText>,
    )
        requires
            w.measures(*self.ar),
            self.totals_ok(t, ops, raw, steps),
            ({
                let a = self.ar.times_spec(self.an.cost.weights.material, t.estimated_cost);
                let b = self.ar.times_spec(self.an.cost.weights.eu, t.net_eu_per_min);
                let c = self.ar.times_spec(self.an.cost.weights.machine, t.total_machines);
                &&& w.amount(self.an.cost.weights.material) && w.amount(t.estimated_cost)
                &&& w.amount(self.an.cost.weights.eu) && w.amount(t.net_eu_per_min)
                &&& w.amount(self.an.cost.weights.machine) && w.amount(t.total_machines)
                &&& (w.fits)(a) && (w.fits)(b) && (w.fits)(c)
                &&& (w.fits)(self.ar.plus_spec(a, b))
                &&& (w.fits)(t.objective_score)
            }),
        ensures
            exists|a: int, b: int, c: int|
                #![trigger floors(a, (w.of)(self.an.cost.weights.material) * (w.of)(t.estimated_cost), w.unit), floors(b, (w.of)(self.an.cost.weights.eu) * (w.of)(t.net_eu_per_min), w.unit), floors(c, (w.of)(self.an.cost.weights.machine) * (w.of)(t.total_machines), w.unit)]
                floors(
                    a,
                    (w.of)(self.an.cost.weights.material) * (w.of)(t.estimated_cost),
                    w.unit,
                ) && floors(
                    b,
                    (w.of)(self.an.cost.weights.eu) * (w.of)(t.net_eu_per_min),
                    w.unit,
                ) && floors(
                    c,
                    (w.of)(self.an.cost.weights.machine) * (w.of)(t.total_machines),
                    w.unit,
                ) && (w.of)(t.objective_score) == a + b + c,
    {
        let a = self.ar.times_spec(self.an.cost.weights.material, t.estimated_cost);
        let b = self.ar.times_spec(self.an.cost.weights.eu, t.net_eu_per_min);
        let c = self.ar.times_spec(self.an.cost.weights.machine, t.total_machines);
        assert(floors(
            (w.of)(a),
            (w.of)(self.an.cost.weights.material) * (w.of)(t.estimated_cost),
            w.unit,
        ));
        assert(floors(
            (w.of)(b),
            (w.of)(self.an.cost.weights.eu) * (w.of)(t.net_eu_per_min),
            w.unit,
        ));
        assert(floors(
            (w.of)(c),
            (w.of)(self.an.cost.weights.machine) * (w.of)(t.total_machines),
            w.unit,
        ));
    }
}

impl<'a, A: Arithmetic> Assembly<'a, A> {
    proof fn all_entries(self, w: Scale, list: Seq<(MaterialId, Scalar)>, i: int)
        requires
            w.measures(*self.ar),
            0 <= i <= list.len(),
            forall|k: int|
                0 <= k < list.len() ==> w.amount((#[trigger] list[k]).1) && (w.of)(list[k].1) > 0,
        ensures
            self.entries_to(list, i).len() == i,
            forall|k: int|
                0 <= k < i ==> is_entry(self, list[k], #[trigger] self.entries_to(list, i)[k]),
        decreases i,
    {
        if i > 0 {
            self.all_entries(w, list, i - 1);
            assert(w.amount(list[i - 1].1));
        }
    }

    /// A plan lists its raw materials, and what it leaves over, at their rates, each
    /// once and nothing else, the greatest rates first.
    pub proof fn plan_shows_materials(
        self,
        w: Scale,
        list: Seq<(MaterialId, Scalar)>,
        shown: Seq<EntryText>,
    )
        requires
            w.measures(*self.ar),
            shown.len() <= usize::MAX,
            forall|k: int|
                0 <= k < list.len() ==> w.amount((#[trigger] list[k]).1) && (w.of)(list[k].1) > 0,
            crate::order::sorted_by(
                self.entries_to(list, list.len() as int),
                crate::planner::assemble::entry_order(
                    *self.ar,
                    self.entries_to(list, list.len() as int),
                ),
                shown,
            ),
        ensures
            shown.len() == list.len(),
            forall|k: int| 0 <= k < list.len() ==> is_among(self, #[trigger] list[k], shown),
            forall|j: int| 0 <= j < shown.len() ==> is_one_of(self, list, #[trigger] shown[j]),
            forall|j: int, k: int|
                0 <= j < k < shown.len() ==> (w.of)((#[trigger] shown[k]).rate_per_min) <= (w.of)(
                    (#[trigger] shown[j]).rate_per_min,
                ),
    {
        let all = self.entries_to(list, list.len() as int);
        let before = crate::planner::assemble::entry_order(*self.ar, all);
        self.all_entries(w, list, list.len() as int);
        crate::planner::assemble::entry_order_orders(*self.ar, all);
        self.materials_listed(list, all, before, shown);
        assert forall|j: int, k: int| 0 <= j < k < shown.len() implies (w.of)(
            (#[trigger] shown[k]).rate_per_min,
        ) <= (w.of)((#[trigger] shown[j]).rate_per_min) by {
            self.rates_fall(w, list, all, shown[j], shown[k]);
        }
    }

    proof fn rates_fall(
        self,
        w: Scale,
        list: Seq<(MaterialId, Scalar)>,
        all: Seq<EntryText>,
        x: EntryText,
        y: EntryText,
    )
        requires
            w.measures(*self.ar),
            all.len() == list.len(),
            forall|k: int| 0 <= k < list.len() ==> w.amount((#[trigger] list[k]).1),
            forall|k: int| 0 <= k < list.len() ==> is_entry(self, list[k], #[trigger] all[k]),
            crate::order::comes_ahead(
                all,
                crate::planner::assemble::entry_order(*self.ar, all),
                x,
                y,
            ),
        ensures
            (w.of)(y.rate_per_min) <= (w.of)(x.rate_per_min),
    {
        let before = crate::planner::assemble::entry_order(*self.ar, all);
        let (a, b) = choose|a: int, b: int|
            0 <= a < all.len() && 0 <= b < all.len() && #[trigger] all[a] == x && #[trigger] all[b]
                == y && crate::order::ahead(before, a, b);
        assert(w.amount(list[a].1) && w.amount(list[b].1));
    }

    proof fn materials_listed(
        self,
        list: Seq<(MaterialId, Scalar)>,
        all: Seq<EntryText>,
        before: spec_fn(int, int) -> bool,
        shown: Seq<EntryText>,
    )
        requires
            all.len() == list.len(),
            shown.len() <= usize::MAX,
            forall|k: int| 0 <= k < list.len() ==> is_entry(self, list[k], #[trigger] all[k]),
            crate::order::orders(before, all.len() as int),
            crate::order::sorted_by(all, before, shown),
        ensures
            shown.len() == list.len(),
            forall|k: int| 0 <= k < list.len() ==> is_among(self, #[trigger] list[k], shown),
            forall|j: int| 0 <= j < shown.len() ==> is_one_of(self, list, #[trigger] shown[j]),
            forall|j: int, k: int|
                0 <= j < k < shown.len() ==> crate::order::comes_ahead(
                    all,
                    before,
                    #[trigger] shown[j],
                    #[trigger] shown[k],
                ),
    {
        assert(shown.len() == all.len());
        crate::order::sorted_by_permutes(all, before, shown);
        assert forall|k: int| 0 <= k < list.len() implies is_among(
            self,
            #[trigger] list[k],
            shown,
        ) by {
            assert(is_entry(self, list[k], all[k]));
            assert(shown.contains(all[k]));
            let j = choose|j: int| 0 <= j < shown.len() && shown[j] == all[k];
            assert(is_entry(self, list[k], shown[j]));
        }
        assert forall|j: int| 0 <= j < shown.len() implies is_one_of(
            self,
            list,
            #[trigger] shown[j],
        ) by {
            assert(all.contains(shown[j]));
            let k = choose|k: int| 0 <= k < all.len() && all[k] == shown[j];
            assert(is_entry(self, list[k], all[k]));
        }
    }
}

/// The entry shows the material at its rate.
pub open spec fn is_entry<'a, A: Arithmetic>(
    x: Assembly<'a, A>,
    e: (MaterialId, Scalar),
    shown: EntryText,
) -> bool {
    shown.material == x.g.dto(e.0) && shown.rate_per_min == e.1 && shown.chance is None
}

/// The material is shown at its rate.
pub open spec fn is_among<'a, A: Arithmetic>(
    x: Assembly<'a, A>,
    e: (MaterialId, Scalar),
    shown: Seq<EntryText>,
) -> bool {
    exists|j: int| 0 <= j < shown.len() && is_entry(x, e, #[trigger] shown[j])
}

/// The entry shows one of the materials.
pub open spec fn is_one_of<'a, A: Arithmetic>(
    x: Assembly<'a, A>,
    list: Seq<(MaterialId, Scalar)>,
    shown: EntryText,
) -> bool {
    exists|k: int| 0 <= k < list.len() && is_entry(x, #[trigger] list[k], shown)
}

/// What is listed ahead has no smaller rate.
proof fn falls<A: Arithmetic>(w: Scale, ar: A, steps: Seq<StepText>, a: int, b: int)
    requires
        w.measures(ar),
        (w.fits)(steps[a].ops_per_min),
        (w.fits)(steps[b].ops_per_min),
        crate::order::ahead(crate::planner::assemble::step_order(ar, steps), a, b),
    ensures
        (w.of)(steps[b].ops_per_min) <= (w.of)(steps[a].ops_per_min),
{
}

/// A product with a whole number is exact.
pub proof fn times_whole<A: Arithmetic>(w: Scale, ar: A, a: Scalar, n: u64)
    requires
        w.measures(ar),
        w.amount(a),
        (w.fits)(ar.ratio_spec(n, 1)),
        (w.fits)(ar.times_spec(a, ar.ratio_spec(n, 1))),
    ensures
        (w.of)(ar.times_spec(a, ar.ratio_spec(n, 1))) == (w.of)(a) * n,
        w.amount(ar.times_spec(a, ar.ratio_spec(n, 1))),
{
    w.whole(ar, n);
    let x = (w.of)(ar.times_spec(a, ar.ratio_spec(n, 1)));
    let y = (w.of)(a);
    let u = w.unit;
    assert(n * u >= 0) by (nonlinear_arith)
        requires
            n >= 0,
            u > 0,
    ;
    assert(x * u <= y * (n * u) < x * u + u);
    assert(x == y * n) by (nonlinear_arith)
        requires
            x * u <= y * (n * u) < x * u + u,
            u > 0,
    ;
}

/// What is found among candidates is one of them.
pub proof fn among_contains(alts: Seq<(MaterialId, u64)>, m: MaterialId)
    ensures
        crate::util::qty_among(alts, m) matches Some(q) ==> alts.contains((m, q)),
    decreases alts.len(),
{
    if alts.len() > 0 {
        if alts[0].0 == m {
            assert(alts[0] == (m, alts[0].1));
        } else {
            among_contains(alts.drop_first(), m);
            if let Some(q) = crate::util::qty_among(alts.drop_first(), m) {
                let i = choose|i: int|
                    0 <= i < alts.drop_first().len() && alts.drop_first()[i] == (m, q);
                assert(alts[i + 1] == (m, q));
            }
        }
    }
}

} // verus!

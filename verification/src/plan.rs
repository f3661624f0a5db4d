//! Production plans.
use vstd::prelude::*;

use crate::graph::MaterialText;
use crate::model::MaterialDto;
use crate::scalar::Scalar;

verus! {

/// A production plan. Rates count pieces of an item or mB of a fluid per minute.
#[derive(Debug)]
pub struct Plan {
    pub target: MaterialDto,
    pub rate_per_min: Scalar,
    pub mode: String,
    pub recipes: Vec<PlannedRecipe>,
    pub raw_materials: Vec<PlanEntry>,
    pub byproducts: Vec<PlanEntry>,
    pub totals: PlanTotals,
    pub metrics: PlanMetrics,
    pub notes: Vec<String>,
    pub elapsed_ms: Scalar,
}

/// One step of a plan.
#[derive(Debug)]
pub struct PlannedRecipe {
    /// Full name of the recipe.
    pub recipe: String,
    pub category: String,
    pub category_title: String,
    /// Operations per minute.
    pub ops_per_min: Scalar,
    /// Machines that are needed, where the length of an operation is known.
    pub machine_count: Option<Scalar>,
    /// The same, in whole machines.
    pub machine_count_int: Option<u64>,
    /// Energy per tick of a machine.
    pub eut: Option<Scalar>,
    pub tier: Option<String>,
    pub eu_per_min: Option<Scalar>,
    /// The inputs that were chosen.
    pub inputs: Vec<PlanEntry>,
    /// All main outputs, by-products too.
    pub outputs: Vec<PlanEntry>,
}

/// A material and its rate, in pieces or mB per minute.
#[derive(Debug)]
pub struct PlanEntry {
    pub material: MaterialDto,
    pub rate_per_min: Scalar,
    /// The chance of an output that is not certain.
    pub chance: Option<Scalar>,
}

/// Totals of a plan.
#[derive(Debug)]
pub struct PlanTotals {
    pub distinct_recipes: usize,
    pub recipe_ops_per_min: Scalar,
    pub raw_items_per_min: Scalar,
    pub raw_fluids_mb_per_min: Scalar,
    /// Cost in raw items; a bucket of fluid counts as one.
    pub estimated_cost: Scalar,
    pub total_machines: Scalar,
    pub total_machines_int: u64,
    /// Energy that is consumed less what is generated, per tick.
    pub net_eu_t: Scalar,
    pub consume_eu_t: Scalar,
    pub generate_eu_t: Scalar,
    pub net_eu_per_min: Scalar,
    /// Weighted sum of cost, energy and machines.
    pub objective_score: Scalar,
}

/// How a plan was found.
#[derive(Debug)]
pub struct PlanMetrics {
    pub evaluations: usize,
    pub lp_variables: Option<usize>,
    pub lp_constraints: Option<usize>,
    pub lp_status: Option<String>,
    pub lp_objective: Option<Scalar>,
    pub search_ms: Scalar,
}

/// An entry of a plan, with its texts.
pub struct EntryText {
    pub material: MaterialText,
    pub rate_per_min: Scalar,
    pub chance: Option<Scalar>,
}

impl View for PlanEntry {
    type V = EntryText;

    open spec fn view(&self) -> EntryText {
        EntryText {
            material: self.material@,
            rate_per_min: self.rate_per_min,
            chance: self.chance,
        }
    }
}

/// Entries with their texts.
pub open spec fn entry_texts(v: Seq<PlanEntry>) -> Seq<EntryText> {
    v.map_values(|e: PlanEntry| e@)
}

/// A step of a plan, with its texts.
pub struct StepText {
    pub recipe: Seq<char>,
    pub category: Seq<char>,
    pub category_title: Seq<char>,
    pub ops_per_min: Scalar,
    pub machine_count: Option<Scalar>,
    pub machine_count_int: Option<u64>,
    pub eut: Option<Scalar>,
    pub tier: Option<Seq<char>>,
    pub eu_per_min: Option<Scalar>,
    pub inputs: Seq<EntryText>,
    pub outputs: Seq<EntryText>,
}

impl View for PlannedRecipe {
    type V = StepText;

    open spec fn view(&self) -> StepText {
        StepText {
            recipe: self.recipe@,
            category: self.category@,
            category_title: self.category_title@,
            ops_per_min: self.ops_per_min,
            machine_count: self.machine_count,
            machine_count_int: self.machine_count_int,
            eut: self.eut,
            tier: crate::graph::text_of(self.tier),
            eu_per_min: self.eu_per_min,
            inputs: entry_texts(self.inputs@),
            outputs: entry_texts(self.outputs@),
        }
    }
}

/// Steps with their texts.
pub open spec fn step_texts(v: Seq<PlannedRecipe>) -> Seq<StepText> {
    v.map_values(|p: PlannedRecipe| p@)
}

impl PlanMetrics {
    /// Nothing measured.
    pub open spec fn none_spec(zero: Scalar) -> PlanMetrics {
        PlanMetrics {
            evaluations: 0,
            lp_variables: None,
            lp_constraints: None,
            lp_status: None,
            lp_objective: None,
            search_ms: zero,
        }
    }

    /// Nothing measured.
    pub fn none(zero: Scalar) -> (r: PlanMetrics)
        ensures
            r == Self::none_spec(zero),
    {
        PlanMetrics {
            evaluations: 0,
            lp_variables: None,
            lp_constraints: None,
            lp_status: None,
            lp_objective: None,
            search_ms: zero,
        }
    }
}

impl Plan {
    /// Notes how long the search took, once that has been measured.
    pub fn set_elapsed(&mut self, elapsed_ms: Scalar)
        ensures
            final(self).elapsed_ms == elapsed_ms,
            final(self).metrics == (PlanMetrics { search_ms: elapsed_ms, ..old(self).metrics }),
            final(self).target == old(self).target,
            final(self).rate_per_min == old(self).rate_per_min,
            final(self).mode == old(self).mode,
            final(self).recipes == old(self).recipes,
            final(self).raw_materials == old(self).raw_materials,
            final(self).byproducts == old(self).byproducts,
            final(self).totals == old(self).totals,
            final(self).notes == old(self).notes,
    {
        self.elapsed_ms = elapsed_ms;
        self.metrics.search_ms = elapsed_ms;
    }
}

} // verus!

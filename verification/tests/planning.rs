//! Costs, routes and plans.
use good_lp::{
    microlp, variable, Expression, ProblemVariables, Solution, SolverModel, Variable,
};
use gt_planner::algo::condensation::Condensation;
use gt_planner::algo::cost::{build, CostDb, CostVector, CostWeights};
use gt_planner::algo::prune::dominance_pruning;
use gt_planner::algo::scc::{build_adjacency, tarjan};
use gt_planner::analysis::Analysis;
use gt_planner::choices::Choices;
use gt_planner::fixed::Fixed;
use gt_planner::gpu::eval::{list_demand, scalar_words, Judging, PartBuffers, SystemBuffers, BATCH};
use gt_planner::gpu::linear::FlowSystem;
use gt_planner::gpu::subgraph::{build_subgraph_from_plan, CandidateTable, SubgraphData};
use gt_planner::graph::KnowledgeGraph;
use gt_planner::model::{MaterialKind, Slot};
use gt_planner::parser::build_from_root;
use gt_planner::plan::Plan;
use gt_planner::planner::beam::{
    plan_beam, plan_beam_with_evaluator, recipe_alternatives, BatchEvaluator, BeamOptions,
};
use gt_planner::planner::mcts::{plan_mcts, MctsOptions};
use gt_planner::planner::tree::{expand_tree, greedy_choices, plan_tree, PlanRequest};
use gt_planner::process::{key_of, ProcessGraph};
use gt_planner::raw::{
    RawCatalyst, RawCategory, RawGt, RawIngredient, RawRecipe, RawRoot, RawSlot, RawSummary,
};
use gt_planner::record::PlanRecord;
use gt_planner::scalar::{Arithmetic, Scalar};
use gt_planner::solver::{failure, Exact, ExactOptions, LpInput, LpSolution, LpVar};
use gt_planner::util::{
    cheapest_alt, cost_strictly_less, norm_qty, output_qty_of, recipe_depth, recipe_output_unit_costs,
    tier_allowed,
};
use serde_json::Value;

/// 64-bit floating-point numbers.
struct Double;

fn f(s: Scalar) -> f64 {
    f64::from_bits(s.bits)
}

fn s(x: f64) -> Scalar {
    Scalar { bits: x.to_bits() }
}

impl Arithmetic for Double {
    fn ratio_spec(&self, num: u64, den: u64) -> Scalar {
        s(num as f64 / den as f64)
    }
    fn ratio(&self, num: u64, den: u64) -> Scalar {
        self.ratio_spec(num, den)
    }
    fn infinity_spec(&self) -> Scalar {
        s(f64::INFINITY)
    }
    fn infinity(&self) -> Scalar {
        self.infinity_spec()
    }
    fn plus_spec(&self, a: Scalar, b: Scalar) -> Scalar {
        s(f(a) + f(b))
    }
    fn plus(&self, a: Scalar, b: Scalar) -> Scalar {
        self.plus_spec(a, b)
    }
    fn minus_spec(&self, a: Scalar, b: Scalar) -> Scalar {
        s(f(a) - f(b))
    }
    fn minus(&self, a: Scalar, b: Scalar) -> Scalar {
        self.minus_spec(a, b)
    }
    fn times_spec(&self, a: Scalar, b: Scalar) -> Scalar {
        s(f(a) * f(b))
    }
    fn times(&self, a: Scalar, b: Scalar) -> Scalar {
        self.times_spec(a, b)
    }
    fn over_spec(&self, a: Scalar, b: Scalar) -> Scalar {
        s(f(a) / f(b))
    }
    fn over(&self, a: Scalar, b: Scalar) -> Scalar {
        self.over_spec(a, b)
    }
    fn abs_spec(&self, a: Scalar) -> Scalar {
        s(f(a).abs())
    }
    fn abs(&self, a: Scalar) -> Scalar {
        self.abs_spec(a)
    }
    fn least_spec(&self, a: Scalar, b: Scalar) -> Scalar {
        s(f(a).min(f(b)))
    }
    fn least(&self, a: Scalar, b: Scalar) -> Scalar {
        self.least_spec(a, b)
    }
    fn most_spec(&self, a: Scalar, b: Scalar) -> Scalar {
        s(f(a).max(f(b)))
    }
    fn most(&self, a: Scalar, b: Scalar) -> Scalar {
        self.most_spec(a, b)
    }
    fn sqrt_spec(&self, a: Scalar) -> Scalar {
        s(f(a).sqrt())
    }
    fn sqrt(&self, a: Scalar) -> Scalar {
        self.sqrt_spec(a)
    }
    fn ln_spec(&self, a: Scalar) -> Scalar {
        s(f(a).ln())
    }
    fn ln(&self, a: Scalar) -> Scalar {
        self.ln_spec(a)
    }
    fn ceil_spec(&self, a: Scalar) -> u64 {
        f(a).ceil() as u64
    }
    fn ceil(&self, a: Scalar) -> u64 {
        self.ceil_spec(a)
    }
    fn rank_spec(&self, a: Scalar) -> u32 {
        (a.bits >> 32) as u32
    }
    fn rank(&self, a: Scalar) -> u32 {
        self.rank_spec(a)
    }
    fn lt_spec(&self, a: Scalar, b: Scalar) -> bool {
        f(a) < f(b)
    }
    fn lt(&self, a: Scalar, b: Scalar) -> bool {
        self.lt_spec(a, b)
    }
    fn le_spec(&self, a: Scalar, b: Scalar) -> bool {
        f(a) <= f(b)
    }
    fn le(&self, a: Scalar, b: Scalar) -> bool {
        self.le_spec(a, b)
    }
    fn finite_spec(&self, a: Scalar) -> bool {
        f(a).is_finite()
    }
    fn is_finite(&self, a: Scalar) -> bool {
        self.finite_spec(a)
    }
    fn decimals_spec(&self, a: Scalar, places: u32) -> String {
        format!("{:.*}", places as usize, f(a))
    }
    fn decimals(&self, a: Scalar, places: u32) -> String {
        self.decimals_spec(a, places)
    }
    fn scientific_spec(&self, a: Scalar) -> String {
        format!("{:e}", f(a))
    }
    fn scientific(&self, a: Scalar) -> String {
        self.scientific_spec(a)
    }
    fn total_before_spec(&self, a: Scalar, b: Scalar) -> bool {
        f(a).total_cmp(&f(b)).is_lt()
    }
    fn total_before(&self, a: Scalar, b: Scalar) -> bool {
        self.total_before_spec(a, b)
    }
    fn total_before_orders(&self) {}
    fn infinity_is_not_finite(&self) {}
}

fn text(v: &Value, key: &str) -> String {
    v.get(key).and_then(Value::as_str).unwrap_or("").to_string()
}

fn maybe(v: &Value, key: &str) -> Option<String> {
    v.get(key).and_then(Value::as_str).map(str::to_string)
}

fn whole(v: &Value, key: &str) -> Option<u64> {
    v.get(key).and_then(Value::as_u64)
}

fn list<'a>(v: &'a Value, key: &str) -> Vec<&'a Value> {
    v.get(key).and_then(Value::as_array).map(|a| a.iter().collect()).unwrap_or_default()
}

fn number<A: Arithmetic>(ar: &A, v: &Value, key: &str) -> Scalar {
    let x = v.get(key).and_then(Value::as_f64).unwrap_or(0.0);
    ar.ratio((x * 1000.0).round() as u64, 1000)
}

fn slots(v: &Value, key: &str) -> Vec<RawSlot> {
    list(v, key)
        .into_iter()
        .map(|slot| RawSlot {
            name: text(slot, "name"),
            ingredients: list(slot, "ingredients")
                .into_iter()
                .map(|i| RawIngredient {
                    ty: text(i, "type"),
                    id: maybe(i, "id"),
                    count: whole(i, "count"),
                    amount: whole(i, "amount"),
                    value: maybe(i, "value"),
                    nbt: maybe(i, "nbt"),
                })
                .collect(),
        })
        .collect()
}

fn machine<A: Arithmetic>(ar: &A, v: &Value) -> RawGt {
    RawGt {
        recipe_type: maybe(v, "recipe_type"),
        duration: whole(v, "duration").unwrap_or(0) as u32,
        parallels: whole(v, "parallels").unwrap_or(1) as u32,
        eut: number(ar, v, "eut"),
        amperage: number(ar, v, "amperage"),
        energy_io: maybe(v, "energy_io"),
        tier: maybe(v, "tier"),
        tier_index: whole(v, "tier_index").map(|t| t as u8),
        voltage: number(ar, v, "voltage"),
        total_eu_t: number(ar, v, "total_eu_t"),
        total_eu: number(ar, v, "total_eu"),
    }
}

fn read_root<A: Arithmetic>(ar: &A, json: &str) -> RawRoot {
    let v: Value = serde_json::from_str(json).unwrap();
    RawRoot {
        format: text(&v, "format"),
        version: whole(&v, "version").unwrap() as u32,
        minecraft_version: text(&v, "minecraft_version"),
        exported_at: text(&v, "exported_at"),
        include_hidden: v.get("include_hidden").and_then(Value::as_bool).unwrap_or(false),
        categories: list(&v, "categories")
            .into_iter()
            .map(|c| RawCategory {
                ty: text(c, "type"),
                title: text(c, "title"),
                recipe_class: maybe(c, "recipe_class"),
                catalysts: list(c, "catalysts")
                    .into_iter()
                    .map(|k| RawCatalyst {
                        ty: text(k, "type"),
                        id: text(k, "id"),
                        count: whole(k, "count"),
                    })
                    .collect(),
                recipes: list(c, "recipes")
                    .into_iter()
                    .map(|r| RawRecipe {
                        id: text(r, "id"),
                        inputs: slots(r, "inputs"),
                        outputs: slots(r, "outputs"),
                        gt: r.get("gt").map(|m| machine(ar, m)),
                    })
                    .collect(),
            })
            .collect(),
        summary: v.get("summary").map(|x| RawSummary {
            category_count: whole(x, "category_count").unwrap_or(0),
            recipe_count: whole(x, "recipe_count").unwrap_or(0),
        }),
    }
}

fn from_json<A: Arithmetic>(ar: &A, json: &str) -> KnowledgeGraph {
    build_from_root(read_root(ar, json)).unwrap()
}

fn item(g: &KnowledgeGraph, id: &str) -> u32 {
    g.find_material(MaterialKind::Item, id, None).unwrap()
}

/// 32-bit floating-point numbers, in the low half of a word.
struct Single;

fn f32_of(s: Scalar) -> f32 {
    f32::from_bits(s.bits as u32)
}

fn s32(x: f32) -> Scalar {
    Scalar { bits: x.to_bits() as u64 }
}

impl Arithmetic for Single {
    fn ratio_spec(&self, num: u64, den: u64) -> Scalar {
        s32(num as f32 / den as f32)
    }
    fn ratio(&self, num: u64, den: u64) -> Scalar {
        self.ratio_spec(num, den)
    }
    fn infinity_spec(&self) -> Scalar {
        s32(f32::INFINITY)
    }
    fn infinity(&self) -> Scalar {
        self.infinity_spec()
    }
    fn plus_spec(&self, a: Scalar, b: Scalar) -> Scalar {
        s32(f32_of(a) + f32_of(b))
    }
    fn plus(&self, a: Scalar, b: Scalar) -> Scalar {
        self.plus_spec(a, b)
    }
    fn minus_spec(&self, a: Scalar, b: Scalar) -> Scalar {
        s32(f32_of(a) - f32_of(b))
    }
    fn minus(&self, a: Scalar, b: Scalar) -> Scalar {
        self.minus_spec(a, b)
    }
    fn times_spec(&self, a: Scalar, b: Scalar) -> Scalar {
        s32(f32_of(a) * f32_of(b))
    }
    fn times(&self, a: Scalar, b: Scalar) -> Scalar {
        self.times_spec(a, b)
    }
    fn over_spec(&self, a: Scalar, b: Scalar) -> Scalar {
        s32(f32_of(a) / f32_of(b))
    }
    fn over(&self, a: Scalar, b: Scalar) -> Scalar {
        self.over_spec(a, b)
    }
    fn abs_spec(&self, a: Scalar) -> Scalar {
        s32(f32_of(a).abs())
    }
    fn abs(&self, a: Scalar) -> Scalar {
        self.abs_spec(a)
    }
    fn least_spec(&self, a: Scalar, b: Scalar) -> Scalar {
        s32(f32_of(a).min(f32_of(b)))
    }
    fn least(&self, a: Scalar, b: Scalar) -> Scalar {
        self.least_spec(a, b)
    }
    fn most_spec(&self, a: Scalar, b: Scalar) -> Scalar {
        s32(f32_of(a).max(f32_of(b)))
    }
    fn most(&self, a: Scalar, b: Scalar) -> Scalar {
        self.most_spec(a, b)
    }
    fn sqrt_spec(&self, a: Scalar) -> Scalar {
        s32(f32_of(a).sqrt())
    }
    fn sqrt(&self, a: Scalar) -> Scalar {
        self.sqrt_spec(a)
    }
    fn ln_spec(&self, a: Scalar) -> Scalar {
        s32(f32_of(a).ln())
    }
    fn ln(&self, a: Scalar) -> Scalar {
        self.ln_spec(a)
    }
    fn ceil_spec(&self, a: Scalar) -> u64 {
        f32_of(a).ceil() as u64
    }
    fn ceil(&self, a: Scalar) -> u64 {
        self.ceil_spec(a)
    }
    fn rank_spec(&self, a: Scalar) -> u32 {
        a.bits as u32
    }
    fn rank(&self, a: Scalar) -> u32 {
        self.rank_spec(a)
    }
    fn lt_spec(&self, a: Scalar, b: Scalar) -> bool {
        f32_of(a) < f32_of(b)
    }
    fn lt(&self, a: Scalar, b: Scalar) -> bool {
        self.lt_spec(a, b)
    }
    fn le_spec(&self, a: Scalar, b: Scalar) -> bool {
        f32_of(a) <= f32_of(b)
    }
    fn le(&self, a: Scalar, b: Scalar) -> bool {
        self.le_spec(a, b)
    }
    fn finite_spec(&self, a: Scalar) -> bool {
        f32_of(a).is_finite()
    }
    fn is_finite(&self, a: Scalar) -> bool {
        self.finite_spec(a)
    }
    fn decimals_spec(&self, a: Scalar, places: u32) -> String {
        format!("{:.*}", places as usize, f32_of(a))
    }
    fn decimals(&self, a: Scalar, places: u32) -> String {
        self.decimals_spec(a, places)
    }
    fn scientific_spec(&self, a: Scalar) -> String {
        format!("{:e}", f32_of(a))
    }
    fn scientific(&self, a: Scalar) -> String {
        self.scientific_spec(a)
    }
    fn total_before_spec(&self, a: Scalar, b: Scalar) -> bool {
        f32_of(a).total_cmp(&f32_of(b)).is_lt()
    }
    fn total_before(&self, a: Scalar, b: Scalar) -> bool {
        self.total_before_spec(a, b)
    }
    fn total_before_orders(&self) {}
    fn infinity_is_not_finite(&self) {}
}

const CRAFT: &str = r#"{
  "format": "test", "version": 1, "minecraft_version": "1.20.1",
  "categories": [
    {
      "type": "test:craft", "title": "Craft", "catalysts": [],
      "recipes": [
        {
          "id": "test:craft/plate_from_ingot",
          "inputs": [{"name": "s", "ingredients": [{"type": "item", "id": "test:ingot", "count": 1}]}],
          "outputs": [{"name": "s", "ingredients": [{"type": "item", "id": "test:plate", "count": 1}]}]
        },
        {
          "id": "test:craft/block_from_plates",
          "inputs": [{"name": "s", "ingredients": [{"type": "item", "id": "test:plate", "count": 9}]}],
          "outputs": [{"name": "s", "ingredients": [{"type": "item", "id": "test:block", "count": 1}]}]
        },
        {
          "id": "test:craft/expensive_block",
          "inputs": [{"name": "s", "ingredients": [{"type": "item", "id": "test:ingot", "count": 99}]}],
          "outputs": [{"name": "s", "ingredients": [{"type": "item", "id": "test:block", "count": 1}]}]
        }
      ]
    }
  ]
}"#;

fn build_db<A: Arithmetic>(ar: &A, g: &KnowledgeGraph) -> CostDb {
    let (n, adj) = build_adjacency(g);
    let scc = tarjan(n, &adj);
    let cond = Condensation::build(g, &scc);
    build(ar, g, &cond, 32, CostWeights::balanced(ar))
}

#[test]
fn costs_and_depth() {
    let g = from_json(&Double, CRAFT);
    let db = build_db(&Double, &g);

    let ingot = g.find_material(MaterialKind::Item, "test:ingot", None).unwrap();
    let plate = g.find_material(MaterialKind::Item, "test:plate", None).unwrap();
    let block = g.find_material(MaterialKind::Item, "test:block", None).unwrap();

    assert_eq!(f(db.vectors[ingot as usize].material), 1.0);
    assert_eq!(f(db.vectors[plate as usize].material), 1.0);
    assert!((f(db.vectors[block as usize].material) - 9.0).abs() < 1e-9, "block 应选 9 板路线");
    assert_eq!(db.depth[ingot as usize], 0);
    assert_eq!(db.depth[plate as usize], 1);
    assert_eq!(db.depth[block as usize], 1);
    let best = db.best_recipe[block as usize].unwrap();
    assert_eq!(g.recipe(best).id, "test:craft/block_from_plates");
}

/// A cycle that gives back what it takes does not win.
#[test]
fn conservative_cycle_does_not_beat_raw_route() {
    let g = from_json(
        &Double,
        r#"{
      "format": "test", "version": 1, "minecraft_version": "1.20.1",
      "categories": [
        {
          "type": "test:craft", "title": "Craft", "catalysts": [],
          "recipes": [
            {
              "id": "test:craft/raw_to_a",
              "inputs": [{"name": "s", "ingredients": [{"type": "item", "id": "test:ore", "count": 2}]}],
              "outputs": [{"name": "s", "ingredients": [{"type": "item", "id": "test:a", "count": 1}]}]
            },
            {
              "id": "test:craft/a_to_b",
              "inputs": [{"name": "s", "ingredients": [{"type": "item", "id": "test:a", "count": 1}]}],
              "outputs": [{"name": "s", "ingredients": [{"type": "item", "id": "test:b", "count": 1}]}]
            },
            {
              "id": "test:craft/b_to_a",
              "inputs": [{"name": "s", "ingredients": [{"type": "item", "id": "test:b", "count": 1}]}],
              "outputs": [{"name": "s", "ingredients": [{"type": "item", "id": "test:a", "count": 1}]}]
            }
          ]
        }
      ]
    }"#,
    );
    let db = build_db(&Double, &g);

    let a = g.find_material(MaterialKind::Item, "test:a", None).unwrap();
    assert!(db.cyclic[a as usize]);
    assert!((f(db.vectors[a as usize].material) - 2.0).abs() < 1e-9, "a 应走矿石路线");
    let best = db.best_recipe[a as usize].unwrap();
    assert_eq!(g.recipe(best).id, "test:craft/raw_to_a", "应优先非循环路线");
}

/// A cycle that gives more than it takes does not make things free.
#[test]
fn amplifying_cycle_is_cut() {
    let g = from_json(
        &Double,
        r#"{
      "format": "test", "version": 1, "minecraft_version": "1.20.1",
      "categories": [
        {
          "type": "test:craft", "title": "Craft", "catalysts": [],
          "recipes": [
            {
              "id": "test:craft/ore_to_ingot",
              "inputs": [{"name": "s", "ingredients": [{"type": "item", "id": "test:ore", "count": 2}]}],
              "outputs": [{"name": "s", "ingredients": [{"type": "item", "id": "test:ingot", "count": 1}]}]
            },
            {
              "id": "test:craft/ingot_to_wire",
              "inputs": [{"name": "s", "ingredients": [{"type": "item", "id": "test:ingot", "count": 1}]}],
              "outputs": [{"name": "s", "ingredients": [{"type": "item", "id": "test:wire", "count": 2}]}]
            },
            {
              "id": "test:craft/wire_to_ingot",
              "inputs": [{"name": "s", "ingredients": [{"type": "item", "id": "test:wire", "count": 2}]}],
              "outputs": [{"name": "s", "ingredients": [{"type": "item", "id": "test:ingot", "count": 1}]}]
            }
          ]
        }
      ]
    }"#,
    );
    let db = build_db(&Double, &g);

    let ingot = g.find_material(MaterialKind::Item, "test:ingot", None).unwrap();
    let wire = g.find_material(MaterialKind::Item, "test:wire", None).unwrap();
    assert!(db.cyclic[ingot as usize]);
    assert!((f(db.vectors[ingot as usize].material) - 2.0).abs() < 1e-9, "锭应锚定矿石路线");
    assert!((f(db.vectors[wire as usize].material) - 1.0).abs() < 1e-9, "线 = 锭/2");
    let best = db.best_recipe[ingot as usize].unwrap();
    assert_eq!(g.recipe(best).id, "test:craft/ore_to_ingot");
}

const POWERED: &str = r#"{
  "format": "test", "version": 1, "minecraft_version": "1.20.1",
  "categories": [
    {
      "type": "test:craft", "title": "Craft", "catalysts": [],
      "recipes": [
        {
          "id": "test:craft/cheap_material_high_eu",
          "inputs": [{"name": "s", "ingredients": [{"type": "item", "id": "test:ore", "count": 1}]}],
          "outputs": [{"name": "s", "ingredients": [{"type": "item", "id": "test:part", "count": 1}]}],
          "gt": {"recipe_type": "test", "duration": 1200, "eut": 1000, "amperage": 1, "energy_io": "in", "total_eu_t": 1000, "total_eu": 1200000}
        },
        {
          "id": "test:craft/expensive_material_low_eu",
          "inputs": [{"name": "s", "ingredients": [{"type": "item", "id": "test:ingot", "count": 4}]}],
          "outputs": [{"name": "s", "ingredients": [{"type": "item", "id": "test:part", "count": 1}]}],
          "gt": {"recipe_type": "test", "duration": 10, "eut": 1, "amperage": 1, "energy_io": "in", "total_eu_t": 1, "total_eu": 10}
        },
        {
          "id": "test:craft/ore_to_ingot",
          "inputs": [{"name": "s", "ingredients": [{"type": "item", "id": "test:ore", "count": 2}]}],
          "outputs": [{"name": "s", "ingredients": [{"type": "item", "id": "test:ingot", "count": 1}]}]
        }
      ]
    }
  ]
}"#;

/// Energy is part of the cost: where it weighs most, the route that needs little
/// of it is chosen.
#[test]
fn eu_weight_changes_route() {
    let g = from_json(&Double, POWERED);
    let (n, adj) = build_adjacency(&g);
    let scc = tarjan(n, &adj);
    let cond = Condensation::build(&g, &scc);

    // Material first: one ore.
    let eco = build(
        &Double,
        &g,
        &cond,
        32,
        CostWeights::preset(&Double, "economy").unwrap(),
    );
    let part = g.find_material(MaterialKind::Item, "test:part", None).unwrap();
    assert_eq!(
        g.recipe(eco.best_recipe[part as usize].unwrap()).id,
        "test:craft/cheap_material_high_eu"
    );

    // Energy first: four ingots.
    let power = build(&Double, &g, &cond, 32, CostWeights::preset(&Double, "power").unwrap());
    assert_eq!(
        g.recipe(power.best_recipe[part as usize].unwrap()).id,
        "test:craft/expensive_material_low_eu"
    );
}

#[test]
fn marks_dominated_recipe() {
    let g = from_json(
        &Double,
        r#"{
      "format": "test", "version": 1, "minecraft_version": "1.20.1",
      "categories": [
        {
          "type": "test:craft", "title": "Craft", "catalysts": [],
          "recipes": [
            {
              "id": "test:craft/good",
              "inputs": [{"name": "s", "ingredients": [{"type": "item", "id": "test:ore", "count": 2}]}],
              "outputs": [{"name": "s", "ingredients": [{"type": "item", "id": "test:dust", "count": 1}]}]
            },
            {
              "id": "test:craft/bad",
              "inputs": [{"name": "s", "ingredients": [{"type": "item", "id": "test:ore", "count": 3}]}],
              "outputs": [{"name": "s", "ingredients": [{"type": "item", "id": "test:dust", "count": 1}]}]
            },
            {
              "id": "test:craft/special",
              "inputs": [{"name": "s", "ingredients": [{"type": "item", "id": "test:special_ore", "count": 1}]}],
              "outputs": [{"name": "s", "ingredients": [{"type": "item", "id": "test:dust", "count": 1}]}]
            }
          ]
        }
      ]
    }"#,
    );
    let db = build_db(&Double, &g);
    let dom = dominance_pruning(&Double, &g, &db.unit_cost);

    let good = g.find_recipe(0, "test:craft/good").unwrap();
    let bad = g.find_recipe(0, "test:craft/bad").unwrap();
    let special = g.find_recipe(0, "test:craft/special").unwrap();
    let dust = g.find_material(MaterialKind::Item, "test:dust", None).unwrap();

    assert!(dom[bad as usize].contains(&dust), "bad 应被 good 支配");
    assert!(dom[good as usize].is_empty());
    assert!(dom[special as usize].is_empty(), "特殊路线不可比较");

    let an = Analysis::build(&Double, &g);
    assert!(an.is_dominated_for(bad, dust));
    assert!(!an.is_dominated_for(good, dust));
}

#[test]
fn detects_cycle() {
    let g = from_json(
        &Double,
        r#"{
      "format": "test", "version": 1, "minecraft_version": "1.20.1",
      "categories": [
        {
          "type": "test:chem", "title": "Chem", "catalysts": [],
          "recipes": [
            {
              "id": "test:chem/loop_a",
              "inputs": [{"name": "s", "ingredients": [{"type": "item", "id": "test:b", "count": 1}]}],
              "outputs": [{"name": "s", "ingredients": [{"type": "item", "id": "test:a", "count": 1}]}]
            },
            {
              "id": "test:chem/loop_b",
              "inputs": [{"name": "s", "ingredients": [{"type": "item", "id": "test:a", "count": 1}]}],
              "outputs": [{"name": "s", "ingredients": [{"type": "item", "id": "test:b", "count": 1}]}]
            },
            {
              "id": "test:chem/raw_to_c",
              "inputs": [{"name": "s", "ingredients": [{"type": "item", "id": "test:ore", "count": 1}]}],
              "outputs": [{"name": "s", "ingredients": [{"type": "item", "id": "test:c", "count": 1}]}]
            }
          ]
        }
      ]
    }"#,
    );
    let (n, adj) = build_adjacency(&g);
    let scc = tarjan(n, &adj);
    let m = g.materials.len();

    let a = g.find_material(MaterialKind::Item, "test:a", None).unwrap();
    let b = g.find_material(MaterialKind::Item, "test:b", None).unwrap();
    let c = g.find_material(MaterialKind::Item, "test:c", None).unwrap();
    let ore = g.find_material(MaterialKind::Item, "test:ore", None).unwrap();

    assert_eq!(scc.comp[a as usize], scc.comp[b as usize], "a 与 b 应在同一 SCC");
    assert!(scc.node_cyclic(a));
    assert!(scc.node_cyclic(b));
    assert!(!scc.node_cyclic(c));
    assert!(!scc.node_cyclic(ore));
    // The two recipes of the cycle are in its component too.
    let r0 = 0u32;
    let r1 = 1u32;
    assert_eq!(scc.comp[m + r0 as usize], scc.comp[m + r1 as usize]);

    let cond = Condensation::build(&g, &scc);
    assert_eq!(cond.cyclic_component_count(), 1);
    assert!(cond.material_cyclic(a) && !cond.material_cyclic(ore));
    // Components that feed others come first.
    let place = |x: u32| {
        let comp = cond.comp_of_material[x as usize];
        cond.topo_order.iter().position(|&k| k == comp).unwrap()
    };
    assert!(place(ore) < place(c));
}

#[test]
fn components_of_small_graphs() {
    // 0 -> 1 -> 2 -> 0, and 3 -> 0.
    let adj = vec![vec![1], vec![2], vec![0], vec![0]];
    let scc = tarjan(4, &adj);
    assert_eq!(scc.comp[0], scc.comp[1]);
    assert_eq!(scc.comp[1], scc.comp[2]);
    assert_ne!(scc.comp[0], scc.comp[3]);
    assert_eq!(scc.sizes[scc.comp[0] as usize], 3);
    assert!(!scc.node_cyclic(3));
    assert!(tarjan(0, &vec![]).sizes.is_empty());
    // Components are numbered as they are closed.
    let scc = tarjan(7, &vec![vec![4], vec![5], vec![6], vec![], vec![1], vec![0], vec![3]]);
    assert_eq!(scc.comp, vec![0, 0, 3, 1, 0, 0, 2]);
    assert_eq!(scc.sizes, vec![4, 1, 1, 1]);
    let scc = tarjan(4, &vec![vec![1], vec![2], vec![1], vec![1]]);
    assert_eq!(scc.comp, vec![1, 0, 0, 2]);
    assert_eq!(scc.sizes, vec![2, 1, 1]);
    assert_eq!(scc.node_count, 4);
}

fn economy(g: &KnowledgeGraph) -> Analysis {
    Analysis::build_with(&Double, g, 48, CostWeights::preset(&Double, "economy").unwrap())
}

fn rate_of(list: &[gt_planner::plan::PlanEntry], id: &str) -> f64 {
    f(list.iter().find(|e| e.material.id == id).unwrap().rate_per_min)
}

fn ops_of(plan: &Plan, id: &str) -> f64 {
    plan.recipes.iter().find(|r| r.recipe == id).map(|r| f(r.ops_per_min)).unwrap_or(0.0)
}

#[test]
fn tree_plan_of_a_block() {
    let g = from_json(&Double, CRAFT);
    let an = economy(&g);
    let plan = plan_tree(&Double, &g, &an, &PlanRequest::new(item(&g, "test:block"), s(2.0)));
    assert_eq!(plan.mode, "tree");
    assert_eq!(plan.target.id, "test:block");
    assert_eq!(ops_of(&plan, "test:craft/block_from_plates"), 2.0);
    assert_eq!(ops_of(&plan, "test:craft/plate_from_ingot"), 18.0);
    assert_eq!(plan.recipes.len(), 2);
    assert_eq!(plan.raw_materials.len(), 1);
    assert_eq!(rate_of(&plan.raw_materials, "test:ingot"), 18.0);
    assert_eq!(f(plan.totals.raw_items_per_min), 18.0);
    assert_eq!(f(plan.totals.recipe_ops_per_min), 20.0);
    assert_eq!(plan.totals.distinct_recipes, 2);
    assert!(plan.byproducts.is_empty());
    assert!(plan.recipes[0].machine_count.is_none());
}

#[test]
fn machines_and_energy() {
    let g = from_json(&Double, POWERED);
    let an = economy(&g);
    let plan = plan_tree(&Double, &g, &an, &PlanRequest::new(item(&g, "test:part"), s(2.5)));
    let r = &plan.recipes[0];
    assert_eq!(r.recipe, "test:craft/cheap_material_high_eu");
    // A minute for each operation: as many machines as operations.
    assert_eq!(f(r.machine_count.unwrap()), 2.5);
    assert_eq!(r.machine_count_int, Some(3));
    assert_eq!(f(r.eut.unwrap()), 1000.0);
    assert_eq!(f(r.eu_per_min.unwrap()), 3_000_000.0);
    assert_eq!(f(plan.totals.total_machines), 2.5);
    assert_eq!(plan.totals.total_machines_int, 3);
    assert_eq!(f(plan.totals.consume_eu_t), 2500.0);
    assert_eq!(f(plan.totals.generate_eu_t), 0.0);
}

#[test]
fn plans_with_fixed_point_numbers() {
    let g = from_json(&Fixed, CRAFT);
    let an = Analysis::build(&Fixed, &g);
    let block = item(&g, "test:block");
    let plan = plan_tree(&Fixed, &g, &an, &PlanRequest::new(block, Fixed.ratio(1, 2)));
    assert_eq!(plan.raw_materials[0].rate_per_min, Fixed.ratio(9, 2));
    let beam = plan_beam(&Fixed, &g, &an, block, Fixed.ratio(1, 2), &BeamOptions::standard(&Fixed));
    assert_eq!(beam.raw_materials[0].rate_per_min, Fixed.ratio(9, 2));
    let mcts = plan_mcts(&Fixed, &g, &an, block, Fixed.ratio(1, 2), &MctsOptions::standard(&Fixed));
    assert_eq!(mcts.raw_materials[0].rate_per_min, Fixed.ratio(9, 2));
}

#[test]
fn chosen_recipes_are_used() {
    let g = from_json(&Double, CRAFT);
    let an = economy(&g);
    let block = item(&g, "test:block");
    let req = PlanRequest::new(block, s(1.0));
    let greedy = greedy_choices(&Double, &g, &an, &req);
    assert_eq!(greedy.get(block), g.find_recipe(0, "test:craft/block_from_plates"));
    let other = g.find_recipe(0, "test:craft/expensive_block").unwrap();
    let mut choices = Choices::new();
    choices.insert(block, other);
    let res = expand_tree(&Double, &g, &an, &req, &choices);
    assert_eq!(res.choices.get(block), Some(other));
    assert_eq!(res.raw.len(), 1);
    assert_eq!(f(res.raw[0].1), 99.0);
    assert_eq!(f(res.ops_total), 1.0);
    assert_eq!(recipe_alternatives(&Double, &g, &an, block, greedy.get(block), 3, None), vec![other]);
}

#[test]
fn what_is_left_over_is_a_byproduct() {
    let g = from_json(
        &Double,
        r#"{"format": "t", "version": 1, "minecraft_version": "1",
            "categories": [{"type": "c", "title": "C", "recipes": [{"id": "c/split",
              "inputs": [{"name": "i", "ingredients": [{"type": "item", "id": "t:ore", "count": 1}]}],
              "outputs": [
                {"name": "o", "ingredients": [{"type": "item", "id": "t:dust", "count": 2}]},
                {"name": "p", "ingredients": [{"type": "fluid", "id": "t:acid", "amount": 250}]}]}]}]}"#,
    );
    let an = economy(&g);
    let plan = plan_tree(&Double, &g, &an, &PlanRequest::new(item(&g, "t:dust"), s(6.0)));
    assert_eq!(ops_of(&plan, "c/split"), 3.0);
    assert_eq!(rate_of(&plan.raw_materials, "t:ore"), 3.0);
    assert_eq!(rate_of(&plan.byproducts, "t:acid"), 750.0);
    let acid = g.find_material(MaterialKind::Fluid, "t:acid", None).unwrap();
    let plan = plan_tree(&Double, &g, &an, &PlanRequest::new(acid, s(500.0)));
    assert_eq!(ops_of(&plan, "c/split"), 2.0);
    assert_eq!(rate_of(&plan.byproducts, "t:dust"), 4.0);
}

#[test]
fn chances_raise_the_number_of_operations() {
    let mut g = from_json(&Double, CRAFT);
    g.chances = gt_planner::chances::ChanceStore::from_raw(
        &Double,
        &vec![gt_planner::chances::RawChance {
            recipe: "test:craft/plate_from_ingot".to_string(),
            output: "test:plate".to_string(),
            chance: s(0.5),
        }],
    );
    let an = economy(&g);
    let plan = plan_tree(&Double, &g, &an, &PlanRequest::new(item(&g, "test:plate"), s(4.0)));
    assert_eq!(ops_of(&plan, "test:craft/plate_from_ingot"), 8.0);
    assert_eq!(rate_of(&plan.raw_materials, "test:ingot"), 8.0);
}

/// Gives every assignment the same score.
struct Even {
    told: usize,
}

impl BatchEvaluator for Even {
    fn prepared_from(
        &self,
        before: &Self,
        _g: &KnowledgeGraph,
        _an: &Analysis,
        _target: u32,
        _rate_per_min: Scalar,
        _choices: &Choices,
    ) -> bool {
        self.told == before.told + 1
    }

    fn prepare(
        &mut self,
        _g: &KnowledgeGraph,
        _an: &Analysis,
        _target: u32,
        _rate_per_min: Scalar,
        _choices: &Choices,
    ) {
        self.told += 1;
    }

    fn evaluate(&self, choices: &Vec<Choices>) -> Vec<Scalar> {
        choices.iter().map(|_| s(1.0)).collect()
    }

    fn name(&self) -> String {
        "even".to_string()
    }
}

#[test]
fn searches_are_never_worse() {
    for (json, target) in [(CRAFT, "test:block"), (POWERED, "test:part")] {
        let g = from_json(&Double, json);
        let an = Analysis::build(&Double, &g);
        let m = item(&g, target);
        let score = |p: &Plan| f(p.totals.estimated_cost) + 0.001 * f(p.totals.recipe_ops_per_min);
        let tree = plan_tree(&Double, &g, &an, &PlanRequest::new(m, s(3.0)));
        let opts = BeamOptions::standard(&Double);
        let beam = plan_beam(&Double, &g, &an, m, s(3.0), &opts);
        assert!(score(&beam) <= score(&tree) + 1e-9);
        let mut even = Even { told: 0 };
        let judged = plan_beam_with_evaluator(&Double, &g, &an, m, s(3.0), &opts, Some(&mut even));
        assert!(score(&judged) <= score(&tree) + 1e-9);
        assert_eq!(even.told, 1);
        assert!(judged.notes.iter().any(|n| n.contains("even")) || judged.mode.contains("even"));
        let mcts = plan_mcts(&Double, &g, &an, m, s(3.0), &MctsOptions::standard(&Double));
        assert!(score(&mcts) <= score(&tree) + 1e-9);
        assert!(mcts.notes.iter().any(|n| n.starts_with("MCTS：")));
    }
}

/// Answers with nothing that could be used.
struct Mute {
    told: Vec<(u32, u32)>,
}

impl BatchEvaluator for Mute {
    fn prepared_from(
        &self,
        before: &Self,
        _g: &KnowledgeGraph,
        _an: &Analysis,
        _target: u32,
        _rate_per_min: Scalar,
        choices: &Choices,
    ) -> bool {
        before.told.is_empty() && self.told == choices.entries
    }

    fn prepare(
        &mut self,
        _g: &KnowledgeGraph,
        _an: &Analysis,
        _target: u32,
        _rate_per_min: Scalar,
        choices: &Choices,
    ) {
        assert!(self.told.is_empty());
        self.told = choices.entries.clone();
    }

    fn evaluate(&self, choices: &Vec<Choices>) -> Vec<Scalar> {
        assert!(!self.told.is_empty());
        assert!(!choices.is_empty());
        choices.iter().map(|_| s(f64::INFINITY)).collect()
    }
}

/// An evaluator that is of no use makes no plan worse.
#[test]
fn evaluators_make_nothing_worse() {
    let score = |p: &Plan| f(p.totals.estimated_cost) + 0.001 * f(p.totals.recipe_ops_per_min);
    for weights in ["power", "economy", "speed"] {
        let g = from_json(&Double, POWERED);
        let an = Analysis::build_with(&Double, &g, 48, CostWeights::preset(&Double, weights).unwrap());
        let m = item(&g, "test:part");
        let opts = BeamOptions::standard(&Double);
        let tree = plan_tree(&Double, &g, &an, &PlanRequest::new(m, s(3.0)));
        let alone = plan_beam(&Double, &g, &an, m, s(3.0), &opts);
        let mut mute = Mute { told: vec![] };
        let judged = plan_beam_with_evaluator(&Double, &g, &an, m, s(3.0), &opts, Some(&mut mute));
        assert!(score(&judged) <= score(&alone));
        assert!(score(&alone) <= score(&tree));
        assert!(!mute.told.is_empty());
        assert!(judged.notes.iter().any(|n| n.contains("batch")));
    }
    // By power the dear route is chosen first; sampling finds the cheap one.
    let g = from_json(&Double, POWERED);
    let an = Analysis::build_with(&Double, &g, 48, CostWeights::preset(&Double, "power").unwrap());
    let m = item(&g, "test:part");
    let tree = plan_tree(&Double, &g, &an, &PlanRequest::new(m, s(3.0)));
    let mut mute = Mute { told: vec![] };
    let opts = BeamOptions::standard(&Double);
    let judged = plan_beam_with_evaluator(&Double, &g, &an, m, s(3.0), &opts, Some(&mut mute));
    assert!(score(&judged) < score(&tree));
    // Without a simulation a tree search changes nothing.
    let none = MctsOptions { iterations: 0, ..MctsOptions::standard(&Double) };
    let still = plan_mcts(&Double, &g, &an, m, s(3.0), &none);
    assert_eq!(still.recipes.len(), tree.recipes.len());
    assert!(still.recipes.iter().zip(&tree.recipes).all(|(a, b)| a.recipe == b.recipe));
}

/// Solves a program with floating-point numbers.
fn solve(exact: &Exact<Double>) -> Plan {
    let model = exact.model();
    let program = exact.program(&model);
    let mut vars = ProblemVariables::new();
    let ops: Vec<Variable> = model.recipes.iter().map(|_| vars.add(variable().min(0))).collect();
    let ext: Vec<Variable> = model.materials.iter().map(|_| vars.add(variable().min(0))).collect();
    let fills: Vec<Vec<Vec<Variable>>> = model
        .recipes
        .iter()
        .map(|r| {
            r.inputs
                .iter()
                .map(|i| match i {
                    LpInput::Direct { .. } => vec![],
                    LpInput::Choice { alts } => {
                        alts.iter().map(|_| vars.add(variable().min(0))).collect()
                    }
                })
                .collect()
        })
        .collect();
    let sum = |terms: &Vec<(LpVar, Scalar)>| {
        let mut e = Expression::default();
        for (v, c) in terms {
            let var = match *v {
                LpVar::Ops(i) => ops[i],
                LpVar::Ext(i) => ext[i],
                LpVar::Fill { recipe, slot, alt } => fills[recipe][slot][alt],
            };
            e.add_mul(f(*c), var);
        }
        e
    };
    let objective = sum(&program.objective);
    let mut problem = vars.minimise(objective.clone()).using(microlp);
    for c in &program.constraints {
        let e = sum(&c.terms);
        problem.add_constraint(if c.exact { e.eq(f(c.rhs)) } else { e.geq(f(c.rhs)) });
    }
    let found = problem.solve().unwrap();
    let x = LpSolution {
        ops: ops.iter().map(|&v| s(found.value(v))).collect(),
        ext: ext.iter().map(|&v| s(found.value(v))).collect(),
        fills: fills
            .iter()
            .map(|r| r.iter().map(|i| i.iter().map(|&v| s(found.value(v))).collect()).collect())
            .collect(),
        objective: s(found.eval(&objective)),
        status: format!("{:?}", found.status()),
    };
    exact.plan(&model, &x)
}

#[test]
fn exact_plan_of_a_block() {
    let g = from_json(&Double, CRAFT);
    let an = economy(&g);
    let opts = ExactOptions::standard(&Double);
    let block = item(&g, "test:block");
    let exact = Exact { ar: &Double, g: &g, an: &an, target: block, rate_per_min: s(2.0), opts: &opts };
    let model = exact.model();
    assert_eq!(model.materials[0], block);
    assert_eq!(model.recipes.len(), 3);
    let program = exact.program(&model);
    assert_eq!(program.constraints.len(), 3);
    assert_eq!(program.objective.len(), 6);
    let plan = solve(&exact);
    assert_eq!(plan.mode, "exact");
    assert!((ops_of(&plan, "test:craft/block_from_plates") - 2.0).abs() < 1e-9);
    assert!((rate_of(&plan.raw_materials, "test:ingot") - 18.0).abs() < 1e-9);
    assert_eq!(plan.metrics.lp_status.as_deref(), Some("Optimal"));
    assert!(plan.notes[0].starts_with("LP 精确求解：3 材料 / 3 配方"));
    assert_eq!(failure("infeasible"), "LP 求解失败: infeasible");
}

#[test]
fn exact_plan_with_a_choice() {
    let g = from_json(
        &Double,
        r#"{"format": "t", "version": 1, "minecraft_version": "1",
            "categories": [{"type": "c", "title": "C", "recipes": [
              {"id": "c/dust_from_ore",
               "inputs": [{"name": "i", "ingredients": [{"type": "item", "id": "t:ore", "count": 3}]}],
               "outputs": [{"name": "o", "ingredients": [{"type": "item", "id": "t:dust", "count": 1}]}]},
              {"id": "c/gear",
               "inputs": [{"name": "i", "ingredients": [
                 {"type": "item", "id": "t:dust", "count": 1},
                 {"type": "item", "id": "t:scrap", "count": 2}]}],
               "outputs": [{"name": "o", "ingredients": [{"type": "item", "id": "t:gear", "count": 1}]}]}]}]}"#,
    );
    let an = economy(&g);
    let opts = ExactOptions::standard(&Double);
    let gear = item(&g, "t:gear");
    let exact = Exact { ar: &Double, g: &g, an: &an, target: gear, rate_per_min: s(1.0), opts: &opts };
    // Two pieces of scrap cost less than the three ores of a dust.
    let plan = solve(&exact);
    assert!((rate_of(&plan.raw_materials, "t:scrap") - 2.0).abs() < 1e-9);
    assert_eq!(plan.recipes.len(), 1);
    assert_eq!(plan.recipes[0].inputs[0].material.id, "t:scrap");
}

#[test]
fn processes_of_plans() {
    let g = from_json(&Double, CRAFT);
    let an = economy(&g);
    let plan = plan_tree(&Double, &g, &an, &PlanRequest::new(item(&g, "test:block"), s(2.0)));
    let p = ProcessGraph::from_plan(&Double, &plan);
    assert_eq!(p.steps.len(), 2);
    assert_eq!(p.target.id, "test:block");
    let plates: Vec<_> = p.flows.iter().filter(|x| x.material.id == "test:plate").collect();
    assert_eq!(plates.len(), 1);
    assert_eq!(f(plates[0].rate_per_min), 18.0);
    let from = plates[0].from_step.unwrap();
    let to = plates[0].to_step.unwrap();
    assert_eq!(p.steps[from].recipe, "test:craft/plate_from_ingot");
    assert_eq!(p.steps[to].recipe, "test:craft/block_from_plates");
    assert_eq!(p.raw_inputs.len(), 1);
    assert_eq!(f(p.raw_inputs[0].rate_per_min), 18.0);
    assert_eq!(p.raw_inputs[0].from_step, None);
}

/// What steps make flows out of them, what they use flows in, and nothing is both
/// brought in and left over.
#[test]
fn processes_balance() {
    let g = from_json(
        &Fixed,
        r#"{"format": "t", "version": 1, "minecraft_version": "1",
            "categories": [{"type": "c", "title": "C", "recipes": [
              {"id": "c/split",
               "inputs": [{"name": "i", "ingredients": [{"type": "item", "id": "t:ore", "count": 1}]}],
               "outputs": [
                 {"name": "o", "ingredients": [{"type": "item", "id": "t:dust", "count": 2}]},
                 {"name": "p", "ingredients": [{"type": "fluid", "id": "t:acid", "amount": 250}]}]},
              {"id": "c/press",
               "inputs": [{"name": "i", "ingredients": [{"type": "item", "id": "t:dust", "count": 4}]}],
               "outputs": [{"name": "o", "ingredients": [{"type": "item", "id": "t:brick", "count": 1}]}]}]}]}"#,
    );
    let an = Analysis::build(&Fixed, &g);
    let plan = plan_tree(&Fixed, &g, &an, &PlanRequest::new(item(&g, "t:brick"), Fixed.ratio(3, 2)));
    let p = ProcessGraph::from_plan(&Fixed, &plan);
    let sum = |list: Vec<Scalar>| list.into_iter().fold(Fixed.ratio(0, 1), |a, b| Fixed.plus(a, b));
    for (i, step) in plan.recipes.iter().enumerate() {
        for o in &step.outputs {
            let out = p.flows.iter().chain(&p.byproducts);
            let out = out.filter(|x| x.from_step == Some(i) && x.material.id == o.material.id);
            assert_eq!(sum(out.map(|x| x.rate_per_min).collect()), o.rate_per_min);
        }
        for u in &step.inputs {
            let into = p.flows.iter().chain(&p.raw_inputs);
            let into = into.filter(|x| x.to_step == Some(i) && x.material.id == u.material.id);
            assert_eq!(sum(into.map(|x| x.rate_per_min).collect()), u.rate_per_min);
        }
    }
    assert_eq!(p.byproducts.len(), 1);
    assert_eq!(p.byproducts[0].rate_per_min, Fixed.ratio(750, 1));
    assert!(p.raw_inputs.iter().all(|r| p.byproducts.iter().all(|b| b.material.id != r.material.id)));
    // Six dusts are asked for and made; three ores are asked for and brought in.
    let req = PlanRequest::new(item(&g, "t:brick"), Fixed.ratio(3, 2));
    let res = expand_tree(&Fixed, &g, &an, &req, &Choices::new());
    assert_eq!(res.raw, vec![(item(&g, "t:ore"), Fixed.ratio(3, 1))]);
    assert_eq!(res.byproducts.len(), 1);
    assert_eq!(res.byproducts[0].1, Fixed.ratio(750, 1));
}

#[test]
fn records_of_plans() {
    let g = from_json(&Double, CRAFT);
    let an = economy(&g);
    let mut plan = plan_tree(&Double, &g, &an, &PlanRequest::new(item(&g, "test:block"), s(2.0)));
    plan.set_elapsed(s(1.5));
    let r = PlanRecord::from_plan(&plan, Some("economy"), Some(3), 1_700_000_000);
    assert_eq!(r.ts, "2023-11-14T22:13:20Z");
    assert_eq!(r.ts_unix, 1_700_000_000);
    assert_eq!(r.target, "test:block");
    assert_eq!((r.mode.as_str(), r.objective.as_deref(), r.max_tier), ("tree", Some("economy"), Some(3)));
    assert_eq!(r.recipes, 2);
    assert_eq!(f(r.elapsed_ms), 1.5);
    assert_eq!(f(r.raw_items_per_min), 18.0);
    assert_eq!(r.notes, plan.notes);
}

fn cut_out(g: &KnowledgeGraph, an: &Analysis, target: u32) -> (SubgraphData, Choices) {
    let req = PlanRequest::new(target, s(2.0));
    let choices = greedy_choices(&Double, g, an, &req);
    let sg = build_subgraph_from_plan(&Double, &Single, g, an, target, &choices, 3);
    (sg, choices)
}

#[test]
fn flows_of_a_part() {
    let g = from_json(&Double, CRAFT);
    let an = economy(&g);
    let block = item(&g, "test:block");
    let (sg, choices) = cut_out(&g, &an, block);
    assert_eq!(sg.target, block);
    let table = CandidateTable::from_choices(&Single, &sg, &choices).unwrap();
    let demand = list_demand(&Single, &sg, s32(2.0));
    let at = sg.mat_index[&block];
    assert_eq!(f32_of(demand[at]), 2.0);
    let system = FlowSystem::from_candidate(&Single, &sg, &table, &demand);
    assert_eq!(system.n, sg.materials.len());
    let x = system.solve_cpu(&Single, 200, s32(0.8));
    // Operations of the recipe of each material.
    assert!((f32_of(x[at]) - 2.0).abs() < 1e-3);
    let plate = sg.mat_index[&item(&g, "test:plate")];
    assert!((f32_of(x[plate]) - 18.0).abs() < 1e-2);
    // What the operations take of the plates; of what comes from outside, nothing
    // is counted.
    let used = system.consumed(&Single, &x);
    assert!((f32_of(used[plate]) - 18.0).abs() < 1e-2);
    let ingot = sg.mat_index[&item(&g, "test:ingot")];
    assert_eq!(f32_of(used[ingot]), 0.0);
    let weights: Vec<Scalar> = x.iter().map(|_| s32(1.0)).collect();
    let score = system.score(&Single, &x, &weights, s32(0.5));
    assert!((f32_of(score) - 10.0).abs() < 1e-2);
}

#[test]
fn buffers_for_a_device() {
    let g = from_json(&Double, CRAFT);
    let an = economy(&g);
    let block = item(&g, "test:block");
    let (sg, choices) = cut_out(&g, &an, block);
    let part = PartBuffers::new(&Single, &sg, s32(2.0)).unwrap();
    let words: Vec<u32> = sg.cons_offsets.iter().map(|&o| o as u32).collect();
    let bytes: Vec<u8> = words.iter().flat_map(|w| w.to_ne_bytes()).collect();
    assert_eq!(part.cons_offsets, bytes);
    let quantities: Vec<u8> = scalar_words(&sg.cons_qty).iter().flat_map(|w| w.to_ne_bytes()).collect();
    assert_eq!(part.cons_qty, quantities);
    assert_eq!(part.demand.len(), 4 * sg.materials.len());

    let mut impossible = Choices::new();
    impossible.insert(block, 77);
    let mut judging = Judging::start(&Double, &Single, &sg, &vec![choices, impossible]);
    let batch = judging.next_batch().unwrap();
    assert_eq!(batch.count, 1);
    assert_eq!(batch.owner.len() % 4, 0);
    judging.note(&vec![s(7.0)]);
    assert!(judging.next_batch().is_none());
    assert_eq!(f(judging.scores[0]), 7.0);
    assert_eq!(f(judging.scores[1]), f64::INFINITY);
    assert_eq!(BATCH, 512);
}

#[test]
fn systems_for_a_device() {
    let g = from_json(&Double, CRAFT);
    let an = economy(&g);
    let (sg, choices) = cut_out(&g, &an, item(&g, "test:block"));
    let table = CandidateTable::from_choices(&Single, &sg, &choices).unwrap();
    let demand = list_demand(&Single, &sg, s32(2.0));
    let systems = vec![FlowSystem::from_candidate(&Single, &sg, &table, &demand)];
    let buffers = SystemBuffers::new(&systems).unwrap();
    assert_eq!(buffers.max_n, systems[0].n);
    let rhs: Vec<u8> = scalar_words(&systems[0].rhs).iter().flat_map(|w| w.to_ne_bytes()).collect();
    assert_eq!(buffers.rhs[..rhs.len()], rhs[..]);
    let flat: Vec<Scalar> = (0..buffers.max_n).map(|i| s32(i as f32)).collect();
    let found = buffers.solutions(&systems, &flat);
    assert_eq!(found, vec![flat]);
}

#[test]
fn small_helpers() {
    let g = from_json(&Double, POWERED);
    assert_eq!(f(norm_qty(&Double, MaterialKind::Item, 3)), 3.0);
    assert_eq!(f(norm_qty(&Double, MaterialKind::Fluid, 500)), 0.5);
    let part = item(&g, "test:part");
    assert_eq!(output_qty_of(g.recipe(0), part), Some(1));
    assert_eq!(output_qty_of(g.recipe(2), part), None);
    assert!(tier_allowed(&g, 0, Some(0)));
    let db = build_db(&Double, &g);
    assert_eq!(recipe_depth(&db.depth, g.recipe(0)), 1);
    let slot = Slot {
        name: "s".to_string(),
        alts: vec![(item(&g, "test:ingot"), 1), (item(&g, "test:ore"), 1)],
    };
    let best = cheapest_alt(&Double, &g, &db.unit_cost, None, &slot);
    assert_eq!(best.map(|b| b.0), Some(item(&g, "test:ore")));
    // What is within reach comes before what is not, whatever the order.
    let endless = vec![s(f64::INFINITY), s(1.0), s(1.0)];
    let slot = Slot { name: "s".to_string(), alts: vec![(0, 1), (1, 1)] };
    assert_eq!(cheapest_alt(&Double, &g, &endless, None, &slot), Some((1, 1)));
    let slot = Slot { name: "s".to_string(), alts: vec![(1, 1), (0, 1)] };
    assert_eq!(cheapest_alt(&Double, &g, &endless, None, &slot), Some((1, 1)));
}

#[test]
fn cost_vectors() {
    let v = CostVector { material: s(2.0), eu: s(10.0), machine: s(1.0) };
    let w = CostWeights { material: s(1.0), eu: s(0.5), machine: s(2.0) };
    assert_eq!(f(v.score(&Double, &w)), 9.0);
    assert_eq!(f(CostVector::raw(&Double).material), 1.0);
    assert!(!CostVector::inf(&Double).is_finite(&Double));
    assert!(CostWeights::preset(&Double, "cheapest").is_none());
    assert!(CostWeights::preset(&Double, "balanced").is_some());
}

const TIERED: &str = r#"{
  "format": "test", "version": 1, "minecraft_version": "1.20.1",
  "categories": [
    {
      "type": "test:craft", "title": "Craft", "catalysts": [],
      "recipes": [
        {
          "id": "test:craft/late",
          "inputs": [{"name": "s", "ingredients": [{"type": "item", "id": "test:ore", "count": 1}]}],
          "outputs": [{"name": "s", "ingredients": [{"type": "item", "id": "test:part", "count": 1}]}],
          "gt": {"recipe_type": "test", "duration": 10, "eut": 1, "amperage": 1, "energy_io": "in", "tier_index": 5}
        },
        {
          "id": "test:craft/early",
          "inputs": [{"name": "s", "ingredients": [{"type": "item", "id": "test:ore", "count": 4}]}],
          "outputs": [{"name": "s", "ingredients": [{"type": "item", "id": "test:part", "count": 1}]}],
          "gt": {"recipe_type": "test", "duration": 10, "eut": 1, "amperage": 1, "energy_io": "in", "tier_index": 1}
        },
        {
          "id": "test:craft/only_late",
          "inputs": [{"name": "s", "ingredients": [{"type": "item", "id": "test:ore", "count": 1}]}],
          "outputs": [{"name": "s", "ingredients": [{"type": "item", "id": "test:ingot", "count": 1}]}],
          "gt": {"recipe_type": "test", "duration": 10, "eut": 1, "amperage": 1, "energy_io": "in", "tier_index": 5}
        },
        {
          "id": "test:craft/by_hand",
          "inputs": [{"name": "s", "ingredients": [{"type": "item", "id": "test:ore", "count": 9}]}],
          "outputs": [{"name": "s", "ingredients": [{"type": "item", "id": "test:part", "count": 1}]}]
        }
      ]
    }
  ]
}"#;

/// No planner uses a recipe of a higher tier than is allowed.
#[test]
fn tiers_are_kept() {
    let g = from_json(&Double, TIERED);
    let an = economy(&g);
    let part = item(&g, "test:part");
    for (max_tier, id) in [
        (None, "test:craft/late"),
        (Some(5), "test:craft/late"),
        (Some(4), "test:craft/early"),
        (Some(0), "test:craft/by_hand"),
    ] {
        let req = PlanRequest { max_tier, ..PlanRequest::new(part, s(1.0)) };
        let beam = BeamOptions { max_tier, ..BeamOptions::standard(&Double) };
        let mcts = MctsOptions { max_tier, ..MctsOptions::standard(&Double) };
        let opts = ExactOptions { max_tier, ..ExactOptions::standard(&Double) };
        let exact = Exact { ar: &Double, g: &g, an: &an, target: part, rate_per_min: s(1.0), opts: &opts };
        for plan in [
            plan_tree(&Double, &g, &an, &req),
            plan_beam(&Double, &g, &an, part, s(1.0), &beam),
            plan_mcts(&Double, &g, &an, part, s(1.0), &mcts),
            solve(&exact),
        ] {
            assert_eq!(plan.recipes.len(), 1);
            assert_eq!(plan.recipes[0].recipe, id);
        }
    }
    // Where no recipe is allowed, the target comes from outside.
    let other = item(&g, "test:ingot");
    let req = PlanRequest { max_tier: Some(4), ..PlanRequest::new(other, s(3.0)) };
    let plan = plan_tree(&Double, &g, &an, &req);
    assert!(plan.recipes.is_empty());
    assert_eq!(rate_of(&plan.raw_materials, "test:ingot"), 3.0);
}

/// What comes from outside is a source, and costs what a raw resource costs.
#[test]
fn sources_cost_what_raw_resources_cost() {
    for (json, target) in [(CRAFT, "test:block"), (POWERED, "test:part"), (TIERED, "test:part")] {
        let g = from_json(&Double, json);
        let db = build_db(&Double, &g);
        for m in 0..g.materials.len() as u32 {
            if g.is_source(m) {
                assert_eq!(f(db.vectors[m as usize].material), 1.0);
                assert_eq!(db.best_recipe[m as usize], None);
            }
        }
        let an = economy(&g);
        let req = PlanRequest::new(item(&g, target), s(1.0));
        let res = expand_tree(&Double, &g, &an, &req, &Choices::new());
        assert!(!res.raw.is_empty());
        assert!(res.raw.iter().all(|&(m, _)| g.is_source(m)));
    }
}

/// Components are listed first come, first served: what nothing feeds first, in
/// ascending order, then what these feed.
#[test]
fn components_first_come_first_served() {
    let g = from_json(
        &Double,
        r#"{"format": "t", "version": 1, "minecraft_version": "1",
            "categories": [{"type": "c", "title": "C", "recipes": [
              {"id": "c/ab",
               "inputs": [{"name": "i", "ingredients": [{"type": "item", "id": "t:a", "count": 1}]}],
               "outputs": [{"name": "o", "ingredients": [{"type": "item", "id": "t:b", "count": 1}]}]},
              {"id": "c/bc",
               "inputs": [{"name": "i", "ingredients": [{"type": "item", "id": "t:b", "count": 1}]}],
               "outputs": [{"name": "o", "ingredients": [{"type": "item", "id": "t:c", "count": 1}]}]},
              {"id": "c/de",
               "inputs": [{"name": "i", "ingredients": [{"type": "item", "id": "t:d", "count": 1}]}],
               "outputs": [{"name": "o", "ingredients": [{"type": "item", "id": "t:e", "count": 1}]}]}]}]}"#,
    );
    let (n, adj) = build_adjacency(&g);
    let scc = tarjan(n, &adj);
    let cond = Condensation::build(&g, &scc);
    // Closed in the order c, b/c, b, a/b, a, e, d/e, d; recipes wait for nothing.
    let of = |id: &str| cond.comp_of_material[item(&g, id) as usize];
    assert_eq!(["t:c", "t:b", "t:a", "t:e", "t:d"].map(of), [0, 2, 4, 5, 7]);
    assert_eq!(cond.topo_order, vec![1, 3, 4, 6, 7, 2, 5, 0]);
}

/// What can only be turned back and forth is priced as a raw resource.
#[test]
fn closed_cycles_are_priced_as_raw() {
    let g = from_json(
        &Double,
        r#"{"format": "t", "version": 1, "minecraft_version": "1",
            "categories": [{"type": "c", "title": "C", "recipes": [
              {"id": "c/press",
               "inputs": [{"name": "i", "ingredients": [{"type": "item", "id": "t:ore", "count": 9}]}],
               "outputs": [{"name": "o", "ingredients": [{"type": "item", "id": "t:block", "count": 1}]}]},
              {"id": "c/split",
               "inputs": [{"name": "i", "ingredients": [{"type": "item", "id": "t:block", "count": 1}]}],
               "outputs": [{"name": "o", "ingredients": [{"type": "item", "id": "t:ore", "count": 9}]}]}]}]}"#,
    );
    let db = build_db(&Double, &g);
    assert!(!g.is_source(item(&g, "t:ore")));
    for id in ["t:ore", "t:block"] {
        let m = item(&g, id) as usize;
        assert_eq!(f(db.vectors[m].material), 1.0);
        assert_eq!(f(db.vectors[m].eu), 0.0);
        assert_eq!(f(db.vectors[m].machine), 0.0);
        assert_eq!(db.best_recipe[m], None);
    }
    // Such materials come from outside.
    let an = economy(&g);
    let plan = plan_tree(&Double, &g, &an, &PlanRequest::new(item(&g, "t:block"), s(2.0)));
    assert!(plan.recipes.is_empty());
    assert_eq!(rate_of(&plan.raw_materials, "t:block"), 2.0);
}

/// Recipes that recycle take part in an exact plan only where that is asked for.
#[test]
fn exact_plans_do_not_recycle_unasked() {
    let g = from_json(
        &Double,
        r#"{"format": "t", "version": 1, "minecraft_version": "1",
            "categories": [
              {"type": "c", "title": "C", "recipes": [{"id": "c/smelt",
                "inputs": [{"name": "i", "ingredients": [{"type": "item", "id": "t:ore", "count": 1}]}],
                "outputs": [{"name": "o", "ingredients": [{"type": "item", "id": "t:ingot", "count": 1}]}]}]},
              {"type": "gtceu:macerator_recycling", "title": "M", "recipes": [{"id": "gtceu:arc_furnace/arc_gear",
                "inputs": [{"name": "i", "ingredients": [{"type": "item", "id": "t:gear", "count": 1}]}],
                "outputs": [{"name": "o", "ingredients": [{"type": "item", "id": "t:ingot", "count": 4}]}]}]}]}"#,
    );
    let an = economy(&g);
    let ingot = item(&g, "t:ingot");
    let recycles: Vec<u32> = (0..2).filter(|&r| g.is_recycling(r)).collect();
    assert_eq!(recycles, vec![1]);
    let mut opts = ExactOptions::standard(&Double);
    let count = |opts: &ExactOptions| {
        let exact = Exact { ar: &Double, g: &g, an: &an, target: ingot, rate_per_min: s(1.0), opts };
        exact.model().recipes.len()
    };
    assert_eq!(count(&opts), 1);
    opts.include_recycling = true;
    assert_eq!(count(&opts), 2);
}

/// A plan whose recipes are exchanged for others that a search tries can still
/// be judged in the part for the plan.
#[test]
fn exchanged_recipes_are_judged() {
    let g = from_json(&Double, CRAFT);
    let an = economy(&g);
    let block = item(&g, "test:block");
    let (sg, choices) = cut_out(&g, &an, block);
    let others = recipe_alternatives(&Double, &g, &an, block, choices.get(block), 3, None);
    assert_eq!(others.len(), 1);
    let mut changed = choices.clone();
    changed.insert(block, others[0]);
    assert!(CandidateTable::from_choices(&Single, &sg, &changed).is_some());
    let mut unknown = choices.clone();
    unknown.insert(block, 0);
    assert!(CandidateTable::from_choices(&Single, &sg, &unknown).is_none());
}

#[test]
fn costs_of_products() {
    let g = from_json(&Double, CRAFT);
    let plate = item(&g, "test:plate");
    let list = recipe_output_unit_costs(&Double, &g, g.recipe(0), s(3.0));
    assert_eq!(list.len(), 1);
    assert_eq!((list[0].0, f(list[0].1)), (plate, 3.0));
    assert!(recipe_output_unit_costs(&Double, &g, g.recipe(0), s(f64::INFINITY)).is_empty());
    assert_eq!(g.recipe(0).primary_output(), Some((plate, 1)));
    assert!(cost_strictly_less(&Double, s(1.0), s(2.0)));
    assert!(cost_strictly_less(&Double, s(1.0), s(f64::INFINITY)));
    assert!(!cost_strictly_less(&Double, s(f64::INFINITY), s(1.0)));
    assert!(!cost_strictly_less(&Double, s(1.0), s(1.0)));
    let key = key_of(&g.material_dto(plate));
    assert_eq!(key, ("item".to_string(), "test:plate".to_string(), None));
}

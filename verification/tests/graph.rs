//! The graph that is built of an export, and what clients see of it.
use gt_planner::analysis::Analysis;
use gt_planner::api::{
    detail_limit, graph_view, kind_filter, material_detail, recipe_dto, resolve_material,
    search_hits, search_limit, GraphParams, PlanMode, PlanReq,
};
use gt_planner::chances::{ChanceStore, RawChance};
use gt_planner::fixed::Fixed;
use gt_planner::graph::KnowledgeGraph;
use gt_planner::model::MaterialKind;
use gt_planner::names::{NameStore, RawName, RawNames};
use gt_planner::parser::{build_from_root, make_display, norm_nbt};
use gt_planner::raw::{
    RawCatalyst, RawCategory, RawGt, RawIngredient, RawRecipe, RawRoot, RawSlot, RawSummary,
};
use gt_planner::report::{find_lines, fmt_num, kind_from_str, stats_lines, top_categories};
use gt_planner::scalar::{Arithmetic, Scalar};
use gt_planner::view::{qty_label, top_primaries, Around, Picture};
use serde_json::Value;

/// 64-bit floating-point numbers.
struct Double;

fn f(s: Scalar) -> f64 {
    f64::from_bits(s.bits)
}

fn s(x: f64) -> Scalar {
    Scalar { bits: x.to_bits() }
}

impl Arithmetic for Double {
    fn ratio_spec(&self, num: u64, den: u64) -> Scalar {
        s(num as f64 / den as f64)
    }
    fn ratio(&self, num: u64, den: u64) -> Scalar {
        self.ratio_spec(num, den)
    }
    fn infinity_spec(&self) -> Scalar {
        s(f64::INFINITY)
    }
    fn infinity(&self) -> Scalar {
        self.infinity_spec()
    }
    fn plus_spec(&self, a: Scalar, b: Scalar) -> Scalar {
        s(f(a) + f(b))
    }
    fn plus(&self, a: Scalar, b: Scalar) -> Scalar {
        self.plus_spec(a, b)
    }
    fn minus_spec(&self, a: Scalar, b: Scalar) -> Scalar {
        s(f(a) - f(b))
    }
    fn minus(&self, a: Scalar, b: Scalar) -> Scalar {
        self.minus_spec(a, b)
    }
    fn times_spec(&self, a: Scalar, b: Scalar) -> Scalar {
        s(f(a) * f(b))
    }
    fn times(&self, a: Scalar, b: Scalar) -> Scalar {
        self.times_spec(a, b)
    }
    fn over_spec(&self, a: Scalar, b: Scalar) -> Scalar {
        s(f(a) / f(b))
    }
    fn over(&self, a: Scalar, b: Scalar) -> Scalar {
        self.over_spec(a, b)
    }
    fn abs_spec(&self, a: Scalar) -> Scalar {
        s(f(a).abs())
    }
    fn abs(&self, a: Scalar) -> Scalar {
        self.abs_spec(a)
    }
    fn least_spec(&self, a: Scalar, b: Scalar) -> Scalar {
        s(f(a).min(f(b)))
    }
    fn least(&self, a: Scalar, b: Scalar) -> Scalar {
        self.least_spec(a, b)
    }
    fn most_spec(&self, a: Scalar, b: Scalar) -> Scalar {
        s(f(a).max(f(b)))
    }
    fn most(&self, a: Scalar, b: Scalar) -> Scalar {
        self.most_spec(a, b)
    }
    fn sqrt_spec(&self, a: Scalar) -> Scalar {
        s(f(a).sqrt())
    }
    fn sqrt(&self, a: Scalar) -> Scalar {
        self.sqrt_spec(a)
    }
    fn ln_spec(&self, a: Scalar) -> Scalar {
        s(f(a).ln())
    }
    fn ln(&self, a: Scalar) -> Scalar {
        self.ln_spec(a)
    }
    fn ceil_spec(&self, a: Scalar) -> u64 {
        f(a).ceil() as u64
    }
    fn ceil(&self, a: Scalar) -> u64 {
        self.ceil_spec(a)
    }
    fn rank_spec(&self, a: Scalar) -> u32 {
        (a.bits >> 32) as u32
    }
    fn rank(&self, a: Scalar) -> u32 {
        self.rank_spec(a)
    }
    fn lt_spec(&self, a: Scalar, b: Scalar) -> bool {
        f(a) < f(b)
    }
    fn lt(&self, a: Scalar, b: Scalar) -> bool {
        self.lt_spec(a, b)
    }
    fn le_spec(&self, a: Scalar, b: Scalar) -> bool {
        f(a) <= f(b)
    }
    fn le(&self, a: Scalar, b: Scalar) -> bool {
        self.le_spec(a, b)
    }
    fn finite_spec(&self, a: Scalar) -> bool {
        f(a).is_finite()
    }
    fn is_finite(&self, a: Scalar) -> bool {
        self.finite_spec(a)
    }
    fn decimals_spec(&self, a: Scalar, places: u32) -> String {
        format!("{:.*}", places as usize, f(a))
    }
    fn decimals(&self, a: Scalar, places: u32) -> String {
        self.decimals_spec(a, places)
    }
    fn scientific_spec(&self, a: Scalar) -> String {
        format!("{:e}", f(a))
    }
    fn scientific(&self, a: Scalar) -> String {
        self.scientific_spec(a)
    }
    fn total_before_spec(&self, a: Scalar, b: Scalar) -> bool {
        f(a).total_cmp(&f(b)).is_lt()
    }
    fn total_before(&self, a: Scalar, b: Scalar) -> bool {
        self.total_before_spec(a, b)
    }
    fn total_before_orders(&self) {}
    fn infinity_is_not_finite(&self) {}
}

fn text(v: &Value, key: &str) -> String {
    v.get(key).and_then(Value::as_str).unwrap_or("").to_string()
}

fn maybe(v: &Value, key: &str) -> Option<String> {
    v.get(key).and_then(Value::as_str).map(str::to_string)
}

fn whole(v: &Value, key: &str) -> Option<u64> {
    v.get(key).and_then(Value::as_u64)
}

fn list<'a>(v: &'a Value, key: &str) -> Vec<&'a Value> {
    v.get(key).and_then(Value::as_array).map(|a| a.iter().collect()).unwrap_or_default()
}

fn number<A: Arithmetic>(ar: &A, v: &Value, key: &str) -> Scalar {
    let x = v.get(key).and_then(Value::as_f64).unwrap_or(0.0);
    ar.ratio((x * 1000.0).round() as u64, 1000)
}

fn slots(v: &Value, key: &str) -> Vec<RawSlot> {
    list(v, key)
        .into_iter()
        .map(|slot| RawSlot {
            name: text(slot, "name"),
            ingredients: list(slot, "ingredients")
                .into_iter()
                .map(|i| RawIngredient {
                    ty: text(i, "type"),
                    id: maybe(i, "id"),
                    count: whole(i, "count"),
                    amount: whole(i, "amount"),
                    value: maybe(i, "value"),
                    nbt: maybe(i, "nbt"),
                })
                .collect(),
        })
        .collect()
}

fn machine<A: Arithmetic>(ar: &A, v: &Value) -> RawGt {
    RawGt {
        recipe_type: maybe(v, "recipe_type"),
        duration: whole(v, "duration").unwrap_or(0) as u32,
        parallels: whole(v, "parallels").unwrap_or(1) as u32,
        eut: number(ar, v, "eut"),
        amperage: number(ar, v, "amperage"),
        energy_io: maybe(v, "energy_io"),
        tier: maybe(v, "tier"),
        tier_index: whole(v, "tier_index").map(|t| t as u8),
        voltage: number(ar, v, "voltage"),
        total_eu_t: number(ar, v, "total_eu_t"),
        total_eu: number(ar, v, "total_eu"),
    }
}

fn read_root<A: Arithmetic>(ar: &A, json: &str) -> RawRoot {
    let v: Value = serde_json::from_str(json).unwrap();
    RawRoot {
        format: text(&v, "format"),
        version: whole(&v, "version").unwrap() as u32,
        minecraft_version: text(&v, "minecraft_version"),
        exported_at: text(&v, "exported_at"),
        include_hidden: v.get("include_hidden").and_then(Value::as_bool).unwrap_or(false),
        categories: list(&v, "categories")
            .into_iter()
            .map(|c| RawCategory {
                ty: text(c, "type"),
                title: text(c, "title"),
                recipe_class: maybe(c, "recipe_class"),
                catalysts: list(c, "catalysts")
                    .into_iter()
                    .map(|k| RawCatalyst {
                        ty: text(k, "type"),
                        id: text(k, "id"),
                        count: whole(k, "count"),
                    })
                    .collect(),
                recipes: list(c, "recipes")
                    .into_iter()
                    .map(|r| RawRecipe {
                        id: text(r, "id"),
                        inputs: slots(r, "inputs"),
                        outputs: slots(r, "outputs"),
                        gt: r.get("gt").map(|m| machine(ar, m)),
                    })
                    .collect(),
            })
            .collect(),
        summary: v.get("summary").map(|x| RawSummary {
            category_count: whole(x, "category_count").unwrap_or(0),
            recipe_count: whole(x, "recipe_count").unwrap_or(0),
        }),
    }
}

fn from_json<A: Arithmetic>(ar: &A, json: &str) -> KnowledgeGraph {
    build_from_root(read_root(ar, json)).unwrap()
}

fn item(g: &KnowledgeGraph, id: &str) -> u32 {
    g.find_material(MaterialKind::Item, id, None).unwrap()
}

const FIXTURE: &str = r#"{
  "format": "gtmfo_jei_recipes",
  "version": 1,
  "minecraft_version": "1.20.1",
  "exported_at": "2026-01-01T00:00:00Z",
  "include_hidden": false,
  "categories": [
    {
      "type": "test:chem",
      "title": "Test Chem",
      "recipe_class": "com.example.Recipe",
      "catalysts": [{"type": "item", "id": "test:machine", "count": 1}],
      "recipes": [
        {
          "id": "test:chem/a",
          "inputs": [
            {"name": "slot_0", "ingredients": [{"type": "item", "id": "test:ore", "count": 2}]},
            {"name": "slot_1", "ingredients": [{"type": "fluid", "id": "test:water", "amount": 1000}]},
            {"name": "slot_2", "ingredients": [
              {"type": "item", "id": "test:tool", "count": 1, "nbt": "{Damage:1}"},
              {"type": "item", "id": "test:tool", "count": 1, "nbt": "{Damage:2}"}
            ]},
            {"name": "slot_3", "ingredients": []}
          ],
          "outputs": [
            {"name": "slot_9", "ingredients": [{"type": "item", "id": "test:dust", "count": 1}]}
          ]
        },
        {"id": "test:chem/info", "inputs": [], "outputs": []}
      ]
    },
    {
      "type": "test:assembler",
      "title": "Test Assembler",
      "recipe_class": "com.example.Recipe",
      "catalysts": [],
      "recipes": [
        {
          "id": "",
          "inputs": [{"name": "slot_0", "ingredients": [{"type": "item", "id": "test:dust", "count": 4}]}],
          "outputs": [{"name": "slot_9", "ingredients": [{"type": "item", "id": "test:block", "count": 1}]}]
        }
      ]
    }
  ],
  "summary": {"category_count": 2, "recipe_count": 3}
}"#;

fn g() -> KnowledgeGraph {
    from_json(&Double, FIXTURE)
}

#[test]
fn builds_materials_and_stats() {
    let g = g();
    assert_eq!(g.stats.material_count, 7, "machine/ore/water/tool1/tool2/dust/block");
    assert_eq!(g.stats.item_count, 6);
    assert_eq!(g.stats.fluid_count, 1);
    assert_eq!(g.stats.nbt_variant_count, 2);
    assert_eq!(g.stats.recipe_count, 3);
    assert_eq!(g.stats.category_count, 2);
    assert_eq!(g.stats.empty_recipe_count, 1);
    assert_eq!(g.stats.consume_links, 5);
    assert_eq!(g.stats.produce_links, 2);
    assert_eq!(g.stats.raw_material_count, 5);
    assert_eq!(g.stats.leaf_material_count, 2);
}

#[test]
fn nbt_is_part_of_identity() {
    let g = g();
    let t1 = g
        .find_material(MaterialKind::Item, "test:tool", Some("{Damage:1}"))
        .unwrap();
    let t2 = g
        .find_material(MaterialKind::Item, "test:tool", Some("{Damage:2}"))
        .unwrap();
    assert_ne!(t1, t2);
    // There is no test:tool without NBT, and a variant does not pass for it.
    assert!(g.find_material(MaterialKind::Item, "test:tool", None).is_none());
    assert!(g.display(t1).contains("[NBT]"));
}

#[test]
fn empty_slots_dropped() {
    let g = g();
    let rid = g.find_recipe(0, "test:chem/a").unwrap();
    assert_eq!(g.recipe(rid).inputs.len(), 3);
}

#[test]
fn fallback_recipe_id() {
    let g = g();
    let rid = g.find_recipe(1, "test:assembler#0").unwrap();
    assert_eq!(g.recipe(rid).id, "test:assembler#0");
}

#[test]
fn or_slot_has_two_candidates() {
    let g = g();
    let rid = g.find_recipe(0, "test:chem/a").unwrap();
    let slot = &g.recipe(rid).inputs[2];
    assert_eq!(slot.alts.len(), 2);
}

#[test]
fn producer_consumer_index() {
    let g = g();
    let dust = g
        .find_material(MaterialKind::Item, "test:dust", None)
        .unwrap();
    assert_eq!(g.producers[dust as usize].len(), 1);
    assert_eq!(g.consumers[dust as usize].len(), 1);
    assert!(!g.is_raw(dust));
    let ore = g
        .find_material(MaterialKind::Item, "test:ore", None)
        .unwrap();
    assert!(g.is_raw(ore));
}

#[test]
fn search_finds_material() {
    let g = g();
    let hits = g.search("block", None, 10);
    assert_eq!(hits.len(), 1);
    assert_eq!(g.material_id_str(hits[0]), "test:block");
}

#[test]
fn search_ignores_case_and_blanks_around() {
    let g = g();
    assert_eq!(g.search("  BLOCK ", None, 10), g.search("block", None, 10));
    assert_eq!(g.search("\u{3000}Block\t", None, 10).len(), 1);
    assert!(g.search("   ", None, 10).is_empty());
    assert!(g.search("block", Some(MaterialKind::Fluid), 10).is_empty());
    assert_eq!(g.search("test", None, 3).len(), 3);
}

#[test]
fn search_orders_names_of_one_length_by_id() {
    let g = from_json(
        &Double,
        r#"{"format": "t", "version": 1, "minecraft_version": "1",
            "categories": [{"type": "c", "title": "C", "recipes": [{"id": "c/r",
              "inputs": [
                {"name": "i", "ingredients": [{"type": "item", "id": "z:aaa", "count": 1}]},
                {"name": "j", "ingredients": [{"type": "item", "id": "a:aaa", "count": 1}]}],
              "outputs": [
                {"name": "o", "ingredients": [{"type": "item", "id": "m:bab", "count": 1}]},
                {"name": "p", "ingredients": [{"type": "item", "id": "z:a", "count": 1}]}]}]}]}"#,
    );
    let ids: Vec<&str> = g.search("a", None, 10).into_iter().map(|m| g.material_id_str(m)).collect();
    assert_eq!(ids, vec!["z:a", "a:aaa", "m:bab", "z:aaa"]);
}

#[test]
fn search_in_given_names() {
    let g = g();
    let n = g.materials.len();
    let mut ids: Vec<String> = (0..n).map(|_| "nothing".to_string()).collect();
    let mut names = ids.clone();
    ids[1] = "some acid".to_string();
    names[2] = "acid too".to_string();
    let mut found = g.search_in("acid", &ids, &names, None, 10);
    found.sort_unstable();
    assert_eq!(found, vec![1, 2]);
    assert_eq!(g.search_in("acid", &ids, &names, None, 1).len(), 1);
    assert!(g.search_in("ACID", &ids, &names, None, 10).is_empty());
    assert!(g.search_in("", &ids, &names, None, 10).is_empty());
    let kind = g.material(1).key.kind;
    assert!(g.search_in("acid", &ids, &names, Some(kind), 10).contains(&1));
}

#[test]
fn search_lists_short_names_first() {
    let g = g();
    let ids: Vec<&str> = g.search("t", None, 10).into_iter().map(|m| g.material_id_str(m)).collect();
    assert_eq!(
        ids,
        vec![
            "test:ore", "test:dust", "test:tool", "test:tool", "test:block", "test:water",
            "test:machine"
        ]
    );
}

#[test]
fn stats_count_what_can_be_planned_with() {
    let g = g();
    assert_eq!(g.stats.plannable_recipe_count, 3);
    assert_eq!(g.stats.harvestable_material_count, 0);
    assert_eq!(g.stats.other_count, 0);
    assert_eq!(g.meta.summary_recipe_count, Some(3));
    assert_eq!(g.meta.minecraft_version, "1.20.1");
}

#[test]
fn names_of_recipes() {
    let g = g();
    assert_eq!(g.recipe_full_id(0), "test:chem/a");
    assert_eq!(g.recipe_full_id(2), "test:assembler#0");
    let lone = from_json(
        &Double,
        r#"{"format": "t", "version": 1, "minecraft_version": "1",
            "categories": [{"type": "minecraft:crafting", "recipes": [
              {"id": "planks", "inputs": [], "outputs": [
                {"name": "o", "ingredients": [{"type": "item", "id": "a:plank"}]}]}]}]}"#,
    );
    assert_eq!(lone.recipe_full_id(0), "minecraft:crafting/planks");
    // What is given for nothing can be harvested; a missing count is one piece.
    assert_eq!(lone.stats.harvestable_material_count, 1);
    assert_eq!(lone.recipe(0).outputs[0].alts, vec![(0, 1)]);
}

#[test]
fn pages_cannot_be_planned_with() {
    let g = from_json(
        &Double,
        r#"{"format": "t", "version": 1, "minecraft_version": "1",
            "categories": [
              {"type": "gtceu:ore_vein_diagram", "recipes": [{"id": "a"}]},
              {"type": "jei:tag_recipes/item", "recipes": [{"id": "b"}]},
              {"type": "gtceu:multiblock_info", "recipes": [{"id": "c"}]},
              {"type": "gtceu:information", "recipes": [{"id": "d"}]}
            ]}"#,
    );
    let plannable: Vec<bool> = (0..4).map(|r| g.is_plannable(r)).collect();
    assert_eq!(plannable, vec![false, false, false, true]);
}

#[test]
fn ids_that_occur_twice_find_the_last() {
    let g = from_json(
        &Double,
        r#"{"format": "t", "version": 1, "minecraft_version": "1",
            "categories": [{"type": "c", "recipes": [{"id": "x"}, {"id": "x"}, {"id": ""}]}]}"#,
    );
    assert_eq!(g.find_recipe(0, "x"), Some(1));
    assert_eq!(g.find_recipe(0, "c#2"), Some(2));
    assert_eq!(g.find_recipe(0, "y"), None);
    assert_eq!(g.find_recipe(7, "x"), None);
}

#[test]
fn readable_names() {
    assert_eq!(make_display("gtceu:copper_ingot", false), "copper ingot");
    assert_eq!(make_display("gtceu:copper_ingot", true), "copper ingot [NBT]");
    assert_eq!(make_display("stone", false), "stone");
    assert_eq!(norm_nbt(Some("")), None);
    assert_eq!(norm_nbt(Some("{Damage:1}")), Some("{Damage:1}"));
    assert_eq!(norm_nbt(None), None);
}

#[test]
fn other_kinds_carry_their_type() {
    let g = from_json(
        &Double,
        r#"{"format": "t", "version": 1, "minecraft_version": "1",
            "categories": [{"type": "c", "recipes": [{"id": "x",
              "inputs": [{"name": "i", "ingredients": [{"type": "energy", "value": "eu"}]}],
              "outputs": []}]}]}"#,
    );
    assert_eq!(g.stats.other_count, 1);
    let kind = g.material(0).key.kind;
    assert_eq!(g.kind_str(kind), "energy");
    assert!(!kind.is_item() && !kind.is_fluid());
    let dto = g.ingredient_dto(0, 12);
    assert_eq!((dto.count, dto.amount, dto.value.as_deref()), (None, None, Some("12")));
    assert_eq!(g.ingredient_dto(0, 7).kind, "energy");
}

#[test]
fn translations() {
    let mut g = g();
    g.names = NameStore::from_raw(&RawNames {
        machines: vec![RawName {
            id: "test:machine".to_string(),
            en: "Machine".to_string(),
            zh: "机器".to_string(),
            tier: Some("LV".to_string()),
            tier_index: Some(1),
        }],
        materials: vec![],
        blocks: vec![RawName {
            id: "test:block".to_string(),
            en: "Block".to_string(),
            zh: String::new(),
            tier: None,
            tier_index: None,
        }],
        items: vec![],
        fluids: vec![],
    });
    assert_eq!(g.names.len(), 2);
    let machine = g.material_dto(item(&g, "test:machine"));
    assert_eq!((machine.display_zh.as_str(), machine.display_en.as_str()), ("机器", "Machine"));
    assert_eq!(g.names.get("test:machine").unwrap().tier_index, Some(1));
    let ore = g.material_dto(item(&g, "test:ore"));
    assert_eq!((ore.display_zh.as_str(), ore.display_en.as_str()), ("ore", "ore"));
    assert!(NameStore::new().is_empty());
}

#[test]
fn chances_of_outputs() {
    let mut g = g();
    g.chances = ChanceStore::from_raw(
        &Double,
        &vec![
            RawChance {
                recipe: "test:chem/a".to_string(),
                output: "test:dust".to_string(),
                chance: s(0.25),
            },
            RawChance {
                recipe: "test:assembler#0".to_string(),
                output: "test:block".to_string(),
                chance: s(1.5),
            },
        ],
    );
    let dust = item(&g, "test:dust");
    assert_eq!(f(g.output_chance(&Double, 0, dust)), 0.25);
    // What has no chance is certain.
    assert_eq!(f(g.output_chance(&Double, 2, dust)), 1.0);
}

#[test]
fn words_for_kinds() {
    assert_eq!(kind_from_str("item"), Some(MaterialKind::Item));
    assert_eq!(kind_from_str("fluid"), Some(MaterialKind::Fluid));
    assert_eq!(kind_from_str("Item"), None);
    assert_eq!(kind_filter(&Some("fluid".to_string())), Some(MaterialKind::Fluid));
    assert_eq!(kind_filter(&None), None);
}

#[test]
fn numbers_in_groups_of_three() {
    assert_eq!(fmt_num(0), "0");
    assert_eq!(fmt_num(999), "999");
    assert_eq!(fmt_num(1000), "1,000");
    assert_eq!(fmt_num(1234567), "1,234,567");
}

#[test]
fn reports() {
    let g = g();
    let (lines, unknown) = find_lines(&g, "block", 5, None);
    assert_eq!(
        lines,
        vec![
            format!("{:<8} {:<45} {:>6} {:>6}  {}", "类型", "ID", "生产者", "消费者", "名称"),
            format!("{:<8} {:<45} {:>6} {:>6}  {}", "item", "test:block", 1, 0, "block"),
        ]
    );
    assert!(!unknown);
    let (none, unknown) = find_lines(&g, "nothing", 5, Some("gas"));
    assert_eq!(none, vec!["没有匹配 \"nothing\" 的材料".to_string()]);
    assert!(unknown);
    assert!(stats_lines(&g).len() > 5);
    let top = top_categories(&g, 1);
    assert_eq!(top.len(), 1);
    assert!(top[0].contains("test:chem"));
}

#[test]
fn materials_by_name() {
    let g = g();
    assert_eq!(resolve_material(&g, "test:ore", None, None), Ok(item(&g, "test:ore")));
    let water = g.find_material(MaterialKind::Fluid, "test:water", None).unwrap();
    assert_eq!(resolve_material(&g, "test:water", None, None), Ok(water));
    assert_eq!(
        resolve_material(&g, "test:water", Some(MaterialKind::Item), None),
        Err("找不到材料 \"test:water\"".to_string())
    );
    assert_eq!(
        resolve_material(&g, "o", None, None),
        Err(
            "找不到材料 \"o\"；你是不是想要：test:ore, test:tool, test:tool, test:block"
                .to_string()
        )
    );
    assert!(resolve_material(&g, "test:tool", None, Some("{Damage:2}")).is_ok());
}

#[test]
fn recipes_for_clients() {
    let g = g();
    let dto = recipe_dto(&g, 0);
    assert_eq!(dto.id, "test:chem/a");
    assert_eq!((dto.category.as_str(), dto.category_title.as_str()), ("test:chem", "Test Chem"));
    assert_eq!(dto.inputs.len(), 3);
    assert_eq!(dto.inputs[1].ingredients[0].amount, Some(1000));
    assert_eq!(dto.outputs[0].ingredients[0].count, Some(1));
}

#[test]
fn material_details() {
    let g = g();
    let an = Analysis::build(&Double, &g);
    let dust = item(&g, "test:dust");
    let d = material_detail(&Double, &g, &an, dust, 60);
    assert_eq!((d.producer_count, d.consumer_count), (1, 1));
    assert_eq!(d.best_recipe.as_deref(), Some("test:chem/a"));
    assert_eq!(d.depth, Some(1));
    assert!(!d.cyclic);
    assert_eq!(d.producers[0].id, "test:chem/a");
    assert_eq!(d.consumers[0].id, "test:assembler#0");
    assert!(material_detail(&Double, &g, &an, dust, 0).producers.is_empty());
    assert_eq!(detail_limit(None), 60);
    assert_eq!(detail_limit(Some(1000)), 300);
}

#[test]
fn hits_for_clients() {
    let g = g();
    let an = Analysis::build(&Double, &g);
    let hits = search_hits(&Double, &g, &an, "dust", None, search_limit(None));
    assert_eq!(hits.len(), 1);
    assert_eq!(hits[0].material.id, "test:dust");
    assert_eq!((hits[0].producers, hits[0].consumers), (1, 1));
    assert!(hits[0].unit_cost.is_some());
    assert_eq!(search_limit(Some(999)), 200);
    assert_eq!(search_limit(Some(7)), 7);
}

fn asked(material: &str, direction: Option<&str>) -> GraphParams {
    GraphParams {
        material: material.to_string(),
        kind: None,
        depth: None,
        direction: direction.map(str::to_string),
        max_nodes: None,
        max_inputs: None,
        max_outputs: None,
        exclude_recycling: None,
    }
}

#[test]
fn surroundings_of_a_material() {
    let g = g();
    let v = graph_view(&Double, &g, &asked("test:block", None)).unwrap();
    let block = item(&g, "test:block");
    assert_eq!(v.start, format!("m:{}", block));
    assert!(!v.truncated);
    assert_eq!(v.pruned_edges, 0);
    let labels: Vec<&str> = v.nodes.iter().map(|n| n.label.as_str()).collect();
    assert_eq!(
        labels,
        vec!["block", "test:assembler#0", "dust", "test:chem/a", "ore", "water", "tool [NBT]"]
    );
    let edges: Vec<Option<&str>> = v.edges.iter().map(|e| e.label.as_deref()).collect();
    assert_eq!(
        edges,
        vec![
            Some("x1"), Some("x4"), Some("x1"), Some("x2"), Some("1000mB"), Some("x1")
        ]
    );
    assert_eq!(v.edges[0].id, format!("e:r:2>m:{}", block));
    assert_eq!(v.nodes[1].node_type, "recipe");
    assert_eq!(v.nodes[1].category.as_deref(), Some("Test Assembler"));
    assert_eq!(v.nodes[3].count, Some(3));
    assert_eq!(v.nodes[2].mat_id.as_deref(), Some("test:dust"));
}

#[test]
fn surroundings_downward() {
    let g = g();
    let v = graph_view(&Double, &g, &asked("test:ore", Some("down"))).unwrap();
    let labels: Vec<&str> = v.nodes.iter().map(|n| n.label.as_str()).collect();
    assert_eq!(labels, vec!["ore", "test:chem/a", "dust", "test:assembler#0", "block"]);
    assert_eq!(v.edges[0].label.as_deref(), Some("x2"));
    let both = graph_view(&Double, &g, &asked("test:dust", Some("both"))).unwrap();
    assert_eq!(both.nodes.len(), 7);
    let neither = graph_view(&Double, &g, &asked("test:dust", Some("sideways"))).unwrap();
    assert_eq!((neither.nodes.len(), neither.edges.len()), (1, 0));
    let missing = graph_view(&Double, &g, &asked("nothing", None));
    assert_eq!(missing.unwrap_err(), "找不到材料 \"nothing\"");
}

#[test]
fn surroundings_keep_within_bounds() {
    let g = g();
    let around = Around {
        ar: &Double,
        g: &g,
        depth: 6,
        node_limit: 3,
        max_inputs: 1,
        max_outputs: 1,
        exclude_recycling: true,
    };
    let v = around.draw(item(&g, "test:block"), true, false);
    assert!(v.truncated);
    assert_eq!(v.nodes.len(), 3);
    let wide = Around { node_limit: 100, ..around };
    let v = wide.draw(item(&g, "test:block"), true, false);
    assert_eq!(v.pruned_edges, 2);
    assert!(!v.truncated);
    // No two nodes have one id, and edges lead from node to node.
    let ids: Vec<&str> = v.nodes.iter().map(|n| n.id.as_str()).collect();
    for (i, id) in ids.iter().enumerate() {
        assert!(!ids[..i].contains(id));
    }
    for e in &v.edges {
        assert!(ids.contains(&e.source.as_str()) && ids.contains(&e.target.as_str()));
    }
}

#[test]
fn greatest_quantities_first() {
    let g = g();
    let (all, out) = top_primaries(&Double, &g, &g.recipe(0).inputs, 2);
    let ore = item(&g, "test:ore");
    // A bucket of water counts as much as one piece, so the ore comes first.
    assert_eq!(out, 1);
    assert_eq!(all.len(), 2);
    assert_eq!(all[0], (ore, 2));
    assert_eq!(qty_label(&g, ore, 0), None);
    assert_eq!(qty_label(&g, ore, 3).as_deref(), Some("x3"));
}

#[test]
fn pictures_hold_nothing_twice() {
    let g = g();
    let mut p = Picture::new();
    assert!(p.add_material_node(&g, 0));
    assert!(!p.add_material_node(&g, 0));
    assert!(p.add_recipe_node(&g, 0));
    assert!(!p.add_recipe_node(&g, 0));
    p.add_graph_edge("m:0".to_string(), "r:0".to_string(), None);
    p.add_graph_edge("m:0".to_string(), "r:0".to_string(), Some("x1".to_string()));
    p.add_graph_edge("r:0".to_string(), "m:0".to_string(), None);
    assert_eq!((p.nodes.len(), p.edges.len()), (2, 2));
    assert_eq!(p.edges[0].label, None);
}

fn plan_req(rate: Scalar, mode: Option<&str>) -> PlanReq {
    PlanReq {
        material: "test:block".to_string(),
        kind: None,
        nbt: None,
        rate,
        mode: mode.map(str::to_string),
        beam_width: Some(2),
        candidates: None,
        max_iterations: None,
        include_recycling: Some(true),
        block_amplification: None,
    }
}

#[test]
fn requests_are_checked() {
    assert_eq!(plan_req(s(1.0), None).check(&Double), Ok(PlanMode::Tree));
    assert_eq!(plan_req(s(1.0), Some("beam")).check(&Double), Ok(PlanMode::Beam));
    assert_eq!(plan_req(s(1.0), Some("exact")).check(&Double), Ok(PlanMode::Exact));
    assert_eq!(
        plan_req(s(1.0), Some("magic")).check(&Double),
        Err("mode 只支持 tree / beam / exact".to_string())
    );
    for bad in [0.0, -1.0, f64::NAN, f64::INFINITY] {
        assert_eq!(
            plan_req(s(bad), Some("magic")).check(&Double),
            Err("rate 必须是正数".to_string())
        );
    }
    let beam = plan_req(s(1.0), None).beam_options(&Double);
    assert_eq!((beam.beam_width, beam.candidate_limit, beam.max_iterations), (2, 3, 12));
    let exact = plan_req(s(1.0), None).exact_options(&Double);
    assert!(exact.include_recycling && !exact.block_amplification);
}

#[test]
fn graphs_do_not_depend_on_the_arithmetic() {
    let g = from_json(&Fixed, FIXTURE);
    let an = Analysis::build(&Fixed, &g);
    let dust = item(&g, "test:dust");
    // Two ores, a bucket of water and a tool.
    assert_eq!(an.cost.vectors[dust as usize].material, Fixed.ratio(4, 1));
    assert_eq!(Fixed.decimals(an.cost.vectors[dust as usize].material, 2), "4.00");
}

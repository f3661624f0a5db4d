//! What is read out of the data of a world.
use vstd::prelude::*;

use crate::model::MaterialId;
use crate::parser::{
    alts_to, draft_to, ingredient_id, ingredient_qty, kind_of, nbt_that_counts, number_of, offers,
    recipes_to, slots_to, with_category, with_material, with_recipe, Draft, KindText, MaterialEntry,
    RecipeEntry, SlotEntry,
};
use crate::program::{total, total_step};
use crate::raw::{RawCategory, RawIngredient, RawRecipe, RawSlot};

verus! {

/// The entry is the material of that kind, id and NBT. Empty NBT is none.
pub open spec fn names(e: MaterialEntry, ty: Seq<char>, id: Seq<char>, nbt: Option<Seq<char>>) -> bool {
    &&& ty == "item"@ ==> e.kind == KindText::Item
    &&& ty == "fluid"@ && ty != "item"@ ==> e.kind == KindText::Fluid
    &&& ty != "item"@ && ty != "fluid"@ ==> e.kind == KindText::Other(ty)
    &&& e.id == id
    &&& match nbt {
        Some(n) => if n.len() > 0 {
            e.nbt == Some(n)
        } else {
            e.nbt is None
        },
        None => e.nbt is None,
    }
}

/// No two materials are of one kind, id and NBT.
pub open spec fn distinct(d: Draft) -> bool {
    forall|i: int, j: int|
        0 <= i < j < d.materials.len() ==> (#[trigger] d.materials[i]).kind != (
        #[trigger] d.materials[j]).kind || d.materials[i].id != d.materials[j].id
            || d.materials[i].nbt != d.materials[j].nbt
}

/// A draft goes on from another: its materials keep their numbers, and its recipes and
/// categories are there.
pub open spec fn goes_on(d: Draft, e: Draft) -> bool {
    &&& d.materials.len() <= e.materials.len()
    &&& forall|i: int| 0 <= i < d.materials.len() ==> #[trigger] e.materials[i] == d.materials[i]
    &&& e.recipes == d.recipes
    &&& e.categories == d.categories
    &&& distinct(d) ==> distinct(e)
    &&& d.materials.len() < u32::MAX ==> e.materials.len() < u32::MAX
}

proof fn number_is_found(
    materials: Seq<MaterialEntry>,
    kind: KindText,
    id: Seq<char>,
    nbt: Option<Seq<char>>,
)
    requires
        materials.len() < u32::MAX,
    ensures
        number_of(materials, kind, id, nbt) matches Some(m) ==> m < materials.len()
            && materials[m as int].kind == kind && materials[m as int].id == id
            && materials[m as int].nbt == nbt,
        number_of(materials, kind, id, nbt) is None ==> forall|i: int|
            0 <= i < materials.len() ==> (#[trigger] materials[i]).kind != kind || materials[i].id
                != id || materials[i].nbt != nbt,
    decreases materials.len(),
{
    if materials.len() > 0 {
        let rest = materials.drop_last();
        number_is_found(rest, kind, id, nbt);
        if number_of(materials, kind, id, nbt) is None {
            assert forall|i: int| 0 <= i < materials.len() implies (#[trigger] materials[i]).kind
                != kind || materials[i].id != id || materials[i].nbt != nbt by {
                if i < rest.len() {
                    assert(rest[i] == materials[i]);
                }
            }
        }
    }
}

/// A material that is met is given its number: the one it has, or the next. Every
/// other material keeps its own, and no material has two.
pub proof fn materials_keep_numbers(d: Draft, ty: Seq<char>, id: Seq<char>, nbt: Option<Seq<char>>)
    requires
        d.materials.len() < u32::MAX,
    ensures
        with_material(d, ty, id, nbt) matches Some((e, m)) ==> {
            &&& goes_on(d, e)
            &&& m < e.materials.len()
            &&& names(e.materials[m as int], ty, id, nbt)
            &&& e.materials.len() <= d.materials.len() + 1
        },
{
    let kind = kind_of(ty);
    let n = nbt_that_counts(nbt);
    number_is_found(d.materials, kind, id, n);
    if let Some((e, m)) = with_material(d, ty, id, nbt) {
        if e.materials.len() > d.materials.len() && distinct(d) {
            assert forall|i: int, j: int| 0 <= i < j < e.materials.len() implies (
            #[trigger] e.materials[i]).kind != (#[trigger] e.materials[j]).kind || e.materials[i].id
                != e.materials[j].id || e.materials[i].nbt != e.materials[j].nbt by {
                if j < d.materials.len() {
                    assert(e.materials[i] == d.materials[i] && e.materials[j] == d.materials[j]);
                } else {
                    assert(e.materials[i] == d.materials[i]);
                }
            }
        }
    }
}

/// The candidate is the ingredient: its material and its quantity.
pub open spec fn is_ingredient(d: Draft, ing: RawIngredient, alt: (MaterialId, u64)) -> bool {
    &&& alt.0 < d.materials.len()
    &&& names(
        d.materials[alt.0 as int],
        ing.ty@,
        ingredient_id(ing),
        crate::graph::text_of(ing.nbt),
    )
    &&& alt.1 == ingredient_qty(ing)
}

/// A candidate is of the material of the ingredient.
pub open spec fn offers_it(d: Draft, ing: RawIngredient, alts: Seq<(MaterialId, u64)>) -> bool {
    exists|a: int|
        0 <= a < alts.len() && (#[trigger] alts[a]).0 < d.materials.len() && names(
            d.materials[alts[a].0 as int],
            ing.ty@,
            ingredient_id(ing),
            crate::graph::text_of(ing.nbt),
        )
}

/// The candidate is one of the first ingredients.
pub open spec fn comes_from(d: Draft, ings: Seq<RawIngredient>, n: int, alt: (MaterialId, u64)) -> bool {
    exists|k: int| 0 <= k < n && is_ingredient(d, #[trigger] ings[k], alt)
}

/// The candidates of a slot are its ingredients: every ingredient of which there is
/// some is offered, every candidate is one of the ingredients, and none is offered
/// twice.
pub proof fn ingredients_are_offered(d: Draft, ings: Seq<RawIngredient>, n: int)
    requires
        d.materials.len() < u32::MAX,
        0 <= n <= ings.len(),
    ensures
        alts_to(d, ings, n) matches Some((e, alts)) ==> {
            &&& goes_on(d, e)
            &&& alts.len() <= n
            &&& forall|k: int|
                0 <= k < n && ingredient_qty(#[trigger] ings[k]) > 0 ==> offers_it(e, ings[k], alts)
            &&& forall|a: int|
                0 <= a < alts.len() ==> comes_from(e, ings, n, #[trigger] alts[a]) && alts[a].1 > 0
            &&& forall|a: int, b: int|
                0 <= a < b < alts.len() ==> (#[trigger] alts[a]).0 != (#[trigger] alts[b]).0
        },
    decreases n,
{
    if n > 0 {
        ingredients_are_offered(d, ings, n - 1);
        if let Some((e, alts)) = alts_to(d, ings, n - 1) {
            let ing = ings[n - 1];
            let nbt = crate::graph::text_of(ing.nbt);
            materials_keep_numbers(e, ing.ty@, ingredient_id(ing), nbt);
            if let Some((f, m)) = with_material(e, ing.ty@, ingredient_id(ing), nbt) {
                let qty = ingredient_qty(ing);
                let res = alts_to(d, ings, n)->0;
                let now = res.1;
                assert(goes_on(d, f)) by {
                    assert forall|i: int| 0 <= i < d.materials.len() implies #[trigger] f.materials[i]
                        == d.materials[i] by {
                        assert(e.materials[i] == d.materials[i]);
                    }
                }
                assert forall|a: int| 0 <= a < now.len() implies comes_from(
                    f,
                    ings,
                    n,
                    #[trigger] now[a],
                ) && now[a].1 > 0 by {
                    if a < alts.len() {
                        assert(now[a] == alts[a]);
                        assert(comes_from(e, ings, n - 1, alts[a]));
                        let k = choose|k: int|
                            0 <= k < n - 1 && is_ingredient(e, #[trigger] ings[k], alts[a]);
                        assert(f.materials[alts[a].0 as int] == e.materials[alts[a].0 as int]);
                        assert(is_ingredient(f, ings[k], now[a]));
                    } else {
                        assert(is_ingredient(f, ings[n - 1], now[a]));
                    }
                }
                assert forall|k: int|
                    0 <= k < n && ingredient_qty(#[trigger] ings[k]) > 0 implies offers_it(
                    f,
                    ings[k],
                    now,
                ) by {
                    if k < n - 1 {
                        assert(offers_it(e, ings[k], alts));
                        let a = choose|a: int|
                            0 <= a < alts.len() && (#[trigger] alts[a]).0 < e.materials.len()
                                && names(
                                e.materials[alts[a].0 as int],
                                ings[k].ty@,
                                ingredient_id(ings[k]),
                                crate::graph::text_of(ings[k].nbt),
                            );
                        assert(now[a] == alts[a]);
                        assert(f.materials[alts[a].0 as int] == e.materials[alts[a].0 as int]);
                    } else if offers(alts, m) {
                        let a = choose|a: int| 0 <= a < alts.len() && (#[trigger] alts[a]).0 == m;
                        assert(now[a].0 == m);
                    } else {
                        assert(now[alts.len() as int].0 == m);
                    }
                }
            }
        }
    }
}

/// There is something in a raw slot.
pub open spec fn has_some(s: RawSlot) -> bool {
    exists|k: int| 0 <= k < s.ingredients@.len() && ingredient_qty(#[trigger] s.ingredients@[k]) > 0
}

pub open spec fn filled(raw: Seq<RawSlot>) -> spec_fn(int) -> int {
    |k: int|
        if has_some(raw[k]) {
            1
        } else {
            0
        }
}

/// The slot shows a raw one: its name, and every ingredient of which there is some.
pub open spec fn shows_slot(d: Draft, raw: RawSlot, s: SlotEntry) -> bool {
    &&& s.name == raw.name@
    &&& s.alts.len() > 0
    &&& forall|k: int|
        0 <= k < raw.ingredients@.len() && ingredient_qty(#[trigger] raw.ingredients@[k]) > 0
            ==> offers_it(d, raw.ingredients@[k], s.alts)
    &&& forall|a: int|
        0 <= a < s.alts.len() ==> comes_from(
            d,
            raw.ingredients@,
            raw.ingredients@.len() as int,
            #[trigger] s.alts[a],
        )
}

proof fn slot_stays(d: Draft, e: Draft, raw: RawSlot, s: SlotEntry)
    requires
        goes_on(d, e),
        shows_slot(d, raw, s),
    ensures
        shows_slot(e, raw, s),
{
    let ings = raw.ingredients@;
    let n = ings.len() as int;
    assert forall|k: int| 0 <= k < n && ingredient_qty(#[trigger] ings[k]) > 0 implies offers_it(
        e,
        ings[k],
        s.alts,
    ) by {
        assert(offers_it(d, ings[k], s.alts));
        let a = choose|a: int|
            0 <= a < s.alts.len() && (#[trigger] s.alts[a]).0 < d.materials.len() && names(
                d.materials[s.alts[a].0 as int],
                ings[k].ty@,
                ingredient_id(ings[k]),
                crate::graph::text_of(ings[k].nbt),
            );
        assert(e.materials[s.alts[a].0 as int] == d.materials[s.alts[a].0 as int]);
    }
    assert forall|a: int| 0 <= a < s.alts.len() implies comes_from(e, ings, n, #[trigger] s.alts[a]) by {
        assert(comes_from(d, ings, n, s.alts[a]));
        let k = choose|k: int| 0 <= k < n && is_ingredient(d, #[trigger] ings[k], s.alts[a]);
        assert(e.materials[s.alts[a].0 as int] == d.materials[s.alts[a].0 as int]);
        assert(is_ingredient(e, ings[k], s.alts[a]));
    }
}

proof fn further(d: Draft, e: Draft, f: Draft)
    requires
        goes_on(d, e),
        goes_on(e, f),
    ensures
        goes_on(d, f),
{
    assert forall|i: int| 0 <= i < d.materials.len() implies #[trigger] f.materials[i]
        == d.materials[i] by {
        assert(e.materials[i] == d.materials[i]);
    }
}

/// Some slot shows the raw one.
pub open spec fn is_shown(d: Draft, raw: RawSlot, slots: Seq<SlotEntry>) -> bool {
    exists|s: int| 0 <= s < slots.len() && shows_slot(d, raw, #[trigger] slots[s])
}

/// Every raw slot with something in it becomes a slot, and no other does.
pub proof fn slots_are_shown(d: Draft, raw: Seq<RawSlot>, n: int)
    requires
        d.materials.len() < u32::MAX,
        0 <= n <= raw.len(),
    ensures
        slots_to(d, raw, n) matches Some((e, slots)) ==> {
            &&& goes_on(d, e)
            &&& slots.len() == total(n as nat, filled(raw))
            &&& forall|k: int| 0 <= k < n && has_some(#[trigger] raw[k]) ==> is_shown(e, raw[k], slots)
        },
    decreases n,
{
    if n > 0 {
        slots_are_shown(d, raw, n - 1);
        total_step(n as nat, filled(raw));
        if let Some((e, slots)) = slots_to(d, raw, n - 1) {
            let ings = raw[n - 1].ingredients@;
            ingredients_are_offered(e, ings, ings.len() as int);
            if let Some((f, alts)) = alts_to(e, ings, ings.len() as int) {
                further(d, e, f);
                let res = slots_to(d, raw, n)->0;
                let now = res.1;
                assert(alts.len() > 0 <==> has_some(raw[n - 1])) by {
                    if alts.len() > 0 {
                        assert(comes_from(f, ings, ings.len() as int, alts[0]));
                        let k = choose|k: int|
                            0 <= k < ings.len() && is_ingredient(f, #[trigger] ings[k], alts[0]);
                        assert(ingredient_qty(ings[k]) > 0);
                    }
                    if has_some(raw[n - 1]) {
                        let k = choose|k: int|
                            0 <= k < ings.len() && ingredient_qty(#[trigger] ings[k]) > 0;
                        assert(offers_it(f, ings[k], alts));
                    }
                }
                assert forall|k: int| 0 <= k < n && has_some(#[trigger] raw[k]) implies is_shown(
                    f,
                    raw[k],
                    now,
                ) by {
                    if k < n - 1 {
                        assert(is_shown(e, raw[k], slots));
                        let s = choose|s: int|
                            0 <= s < slots.len() && shows_slot(e, raw[k], #[trigger] slots[s]);
                        slot_stays(e, f, raw[k], slots[s]);
                        assert(now[s] == slots[s]);
                    } else {
                        assert(shows_slot(f, raw[k], now[slots.len() as int]));
                    }
                }
            }
        }
    }
}

/// A recipe shows a raw one: its slots, its own id or one that is made of its
/// category and place, and what is known of its machine.
pub open spec fn shows_recipe(d: Draft, ty: Seq<char>, idx: nat, raw: RawRecipe, r: RecipeEntry) -> bool {
    &&& r.inputs.len() == total(raw.inputs@.len(), filled(raw.inputs@))
    &&& r.outputs.len() == total(raw.outputs@.len(), filled(raw.outputs@))
    &&& forall|k: int|
        0 <= k < raw.inputs@.len() && has_some(#[trigger] raw.inputs@[k]) ==> is_shown(
            d,
            raw.inputs@[k],
            r.inputs,
        )
    &&& forall|k: int|
        0 <= k < raw.outputs@.len() && has_some(#[trigger] raw.outputs@[k]) ==> is_shown(
            d,
            raw.outputs@[k],
            r.outputs,
        )
    &&& raw.id@.len() > 0 ==> r.id == raw.id@
    &&& raw.id@.len() == 0 ==> r.id == ty + "#"@ + crate::text::decimal(idx)
    &&& r.gt is Some == raw.gt is Some
    &&& raw.gt matches Some(gt) ==> {
        &&& r.gt->0.duration_ticks == gt.duration
        &&& r.gt->0.total_eu == gt.total_eu
        &&& r.gt->0.total_eu_t == gt.total_eu_t
        &&& r.gt->0.eut == gt.eut
        &&& r.gt->0.tier_index == gt.tier_index
        &&& r.gt->0.tier == crate::graph::text_of(gt.tier)
        &&& (r.gt->0.energy_io == Some(crate::model::EnergyIo::In)) == (crate::graph::text_of(
            gt.energy_io,
        ) == Some("in"@))
        &&& r.gt->0.energy_io == Some(crate::model::EnergyIo::Out) ==> crate::graph::text_of(
            gt.energy_io,
        ) == Some("out"@)
        &&& crate::graph::text_of(gt.energy_io) == Some("out"@) && "in"@ != "out"@
            ==> r.gt->0.energy_io == Some(crate::model::EnergyIo::Out)
    }
}

/// A raw recipe becomes one recipe, which shows it; what was there stays.
pub proof fn recipes_are_read(d: Draft, cid: u32, ty: Seq<char>, idx: nat, raw: RawRecipe)
    requires
        d.materials.len() < u32::MAX,
    ensures
        with_recipe(d, cid, ty, idx, raw) matches Some(e) ==> {
            &&& e.recipes.len() == d.recipes.len() + 1
            &&& forall|i: int| 0 <= i < d.recipes.len() ==> #[trigger] e.recipes[i] == d.recipes[i]
            &&& e.recipes.last().category == cid
            &&& shows_recipe(e, ty, idx, raw, e.recipes.last())
            &&& e.categories == d.categories
            &&& e.materials.len() < u32::MAX
            &&& distinct(d) ==> distinct(e)
        },
{
    slots_are_shown(d, raw.inputs@, raw.inputs@.len() as int);
    if let Some((e, inputs)) = slots_to(d, raw.inputs@, raw.inputs@.len() as int) {
        slots_are_shown(e, raw.outputs@, raw.outputs@.len() as int);
        if let Some((f, outputs)) = slots_to(e, raw.outputs@, raw.outputs@.len() as int) {
            if let Some(now) = with_recipe(d, cid, ty, idx, raw) {
                assert forall|k: int|
                    0 <= k < raw.inputs@.len() && has_some(#[trigger] raw.inputs@[k]) implies is_shown(
                    now,
                    raw.inputs@[k],
                    inputs,
                ) by {
                    assert(is_shown(e, raw.inputs@[k], inputs));
                    let s = choose|s: int|
                        0 <= s < inputs.len() && shows_slot(e, raw.inputs@[k], #[trigger] inputs[s]);
                    slot_stays(e, f, raw.inputs@[k], inputs[s]);
                    same_materials(f, now, raw.inputs@[k], inputs[s]);
                }
                assert forall|k: int|
                    0 <= k < raw.outputs@.len() && has_some(
                        #[trigger] raw.outputs@[k],
                    ) implies is_shown(now, raw.outputs@[k], outputs) by {
                    assert(is_shown(f, raw.outputs@[k], outputs));
                    let s = choose|s: int|
                        0 <= s < outputs.len() && shows_slot(
                            f,
                            raw.outputs@[k],
                            #[trigger] outputs[s],
                        );
                    same_materials(f, now, raw.outputs@[k], outputs[s]);
                }
            }
        }
    }
}

proof fn same_materials(d: Draft, e: Draft, raw: RawSlot, s: SlotEntry)
    requires
        e.materials == d.materials,
        shows_slot(d, raw, s),
    ensures
        shows_slot(e, raw, s),
{
    let f = Draft { recipes: d.recipes, categories: d.categories, ..e };
    slot_stays(d, f, raw, s);
    let ings = raw.ingredients@;
    assert forall|k: int| 0 <= k < ings.len() && ingredient_qty(#[trigger] ings[k]) > 0 implies offers_it(
        e,
        ings[k],
        s.alts,
    ) by {
        assert(offers_it(f, ings[k], s.alts));
    }
    assert forall|a: int| 0 <= a < s.alts.len() implies comes_from(
        e,
        ings,
        ings.len() as int,
        #[trigger] s.alts[a],
    ) by {
        assert(comes_from(f, ings, ings.len() as int, s.alts[a]));
        let k = choose|k: int|
            0 <= k < ings.len() && is_ingredient(f, #[trigger] ings[k], s.alts[a]);
        assert(is_ingredient(e, ings[k], s.alts[a]));
    }
}

/// An item counts as often as it says, or once; a fluid by its amount, or not at all;
/// anything else once. Items and fluids go by their id, anything else by its value,
/// or its id where it has none; what has neither is unknown.
pub proof fn ingredients_are_read(ing: RawIngredient)
    ensures
        ing.ty@ == "item"@ ==> ingredient_qty(ing) == match ing.count {
            Some(n) => n,
            None => 1,
        },
        ing.ty@ == "fluid"@ && ing.ty@ != "item"@ ==> ingredient_qty(ing) == match ing.amount {
            Some(n) => n,
            None => 0,
        },
        ing.ty@ != "item"@ && ing.ty@ != "fluid"@ ==> ingredient_qty(ing) == 1,
        ing.ty@ == "item"@ || ing.ty@ == "fluid"@ ==> ingredient_id(ing) == match ing.id {
            Some(id) => id@,
            None => "unknown"@,
        },
        ing.ty@ != "item"@ && ing.ty@ != "fluid"@ ==> ingredient_id(ing) == match (ing.value, ing.id) {
            (Some(v), _) => v@,
            (None, Some(id)) => id@,
            (None, None) => "unknown"@,
        },
{
}

proof fn category_recipes(d: Draft, cid: u32, raw: RawCategory, n: int)
    requires
        d.materials.len() < u32::MAX,
        distinct(d),
        0 <= n <= raw.recipes@.len(),
    ensures
        recipes_to(d, cid, raw, n) matches Some(e) ==> {
            &&& e.recipes.len() == d.recipes.len() + n
            &&& forall|i: int| 0 <= i < d.recipes.len() ==> #[trigger] e.recipes[i] == d.recipes[i]
            &&& forall|i: int|
                d.recipes.len() <= i < e.recipes.len() ==> (#[trigger] e.recipes[i]).category == cid
            &&& e.categories == d.categories
            &&& e.materials.len() < u32::MAX
            &&& distinct(e)
        },
    decreases n,
{
    if n > 0 {
        category_recipes(d, cid, raw, n - 1);
        if let Some(e) = recipes_to(d, cid, raw, n - 1) {
            recipes_are_read(e, cid, raw.ty@, (n - 1) as nat, raw.recipes@[n - 1]);
        }
    }
}

proof fn catalysts_go_on(d: Draft, raw: Seq<crate::raw::RawCatalyst>, n: int)
    requires
        d.materials.len() < u32::MAX,
        0 <= n <= raw.len(),
    ensures
        crate::parser::catalysts_to(d, raw, n) matches Some((e, list)) ==> goes_on(d, e)
            && list.len() == n && forall|k: int|
            0 <= k < n ==> is_catalyst(e, raw[k], #[trigger] list[k]),
    decreases n,
{
    if n > 0 {
        catalysts_go_on(d, raw, n - 1);
        if let Some((e, list)) = crate::parser::catalysts_to(d, raw, n - 1) {
            materials_keep_numbers(e, raw[n - 1].ty@, raw[n - 1].id@, None);
            if let Some((f, m)) = with_material(e, raw[n - 1].ty@, raw[n - 1].id@, None) {
                further(d, e, f);
                let res = crate::parser::catalysts_to(d, raw, n)->0;
                let now = res.1;
                assert forall|k: int| 0 <= k < n implies is_catalyst(f, raw[k], #[trigger] now[k]) by {
                    if k < n - 1 {
                        assert(now[k] == list[k]);
                        assert(is_catalyst(e, raw[k], list[k]));
                        assert(f.materials[list[k].0 as int] == e.materials[list[k].0 as int]);
                    }
                }
            }
        }
    }
}

/// The catalyst is the material that it names, as often as it says, or once.
pub open spec fn is_catalyst(d: Draft, raw: crate::raw::RawCatalyst, c: (MaterialId, u64)) -> bool {
    &&& c.0 < d.materials.len()
    &&& names(d.materials[c.0 as int], raw.ty@, raw.id@, None)
    &&& c.1 == match raw.count {
        Some(n) => n,
        None => 1,
    }
}

/// How many recipes a category has.
pub open spec fn recipe_counts(categories: Seq<RawCategory>) -> spec_fn(int) -> int {
    |k: int| categories[k].recipes@.len() as int
}

/// Everything is read: there is a category for each raw one, in order, with its
/// recipes counted, and a recipe for each raw one. No two materials are alike.
pub proof fn everything_is_read(categories: Seq<RawCategory>, n: int)
    requires
        0 <= n <= categories.len(),
    ensures
        draft_to(categories, n) matches Some(d) ==> {
            &&& d.categories.len() == n
            &&& forall|c: int|
                0 <= c < n ==> (#[trigger] d.categories[c]).ty == categories[c].ty@
                    && d.categories[c].title == categories[c].title@ && d.categories[c].recipe_count
                    == categories[c].recipes@.len() && d.categories[c].catalysts.len()
                    == categories[c].catalysts@.len()
            &&& d.recipes.len() == total(n as nat, recipe_counts(categories))
            &&& forall|i: int|
                0 <= i < d.recipes.len() ==> (#[trigger] d.recipes[i]).category < n
            &&& distinct(d)
            &&& d.materials.len() < u32::MAX
        },
    decreases n,
{
    if n > 0 {
        everything_is_read(categories, n - 1);
        total_step(n as nat, recipe_counts(categories));
        if let Some(d) = draft_to(categories, n - 1) {
            let raw = categories[n - 1];
            catalysts_go_on(d, raw.catalysts@, raw.catalysts@.len() as int);
            if let Some((e, list)) = crate::parser::catalysts_to(
                d,
                raw.catalysts@,
                raw.catalysts@.len() as int,
            ) {
                if let Some(now) = with_category(d, raw) {
                    category_recipes(
                        Draft {
                            categories: e.categories.push(
                                crate::parser::CategoryEntry {
                                    ty: raw.ty@,
                                    title: raw.title@,
                                    recipe_class: crate::graph::text_of(raw.recipe_class),
                                    catalysts: list,
                                    recipe_count: raw.recipes@.len(),
                                },
                            ),
                            ..e
                        },
                        d.categories.len() as u32,
                        raw,
                        raw.recipes@.len() as int,
                    );
                    assert forall|i: int| 0 <= i < now.recipes.len() implies (
                    #[trigger] now.recipes[i]).category < n by {
                        if i < d.recipes.len() {
                            assert(now.recipes[i] == d.recipes[i]);
                        }
                    }
                }
            }
        }
    }
}

} // verus!

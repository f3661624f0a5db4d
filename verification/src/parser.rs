//! From the recipe export to the graph.
//!
//! A material is identified by its kind, its id and its NBT. The ingredients of a
//! slot are candidates, any one of which fills it; slots without candidates are
//! dropped. Who produces and who consumes a material is noted on the way.
use std::collections::HashMap;

use vstd::hash_map::StringHashMap;
use vstd::prelude::*;

use crate::chances::ChanceStore;
use crate::error::Error;
use crate::graph::{DatasetMeta, GraphStats, KnowledgeGraph};
use crate::intern::Interner;
use crate::list::sum_capped;
use crate::model::{
    copy_option, Catalyst, CategoryId, CategoryInfo, EnergyIo, GtRecipeInfo, MaterialId,
    MaterialInfo, MaterialKey, MaterialKind, RecipeId, RecipeNode, Slot,
};
use crate::names::NameStore;
use crate::raw::{RawCategory, RawGt, RawIngredient, RawRecipe, RawRoot, RawSlot};
use crate::scalar::Scalar;
use crate::text::{
    contains, decimal_string, ends_with, joined, same, short_name, underscores_to_blanks,
};

verus! {

/// The kind of a material, with the name of another type.
pub enum KindText {
    Item,
    Fluid,
    Other(Seq<char>),
}

/// What identifies a material, and its readable name.
pub struct MaterialEntry {
    pub kind: KindText,
    pub id: Seq<char>,
    pub nbt: Option<Seq<char>>,
    pub display: Seq<char>,
}

/// A slot, with its texts.
pub struct SlotEntry {
    pub name: Seq<char>,
    pub alts: Seq<(MaterialId, u64)>,
}

/// The machine data of a recipe, with its texts.
pub struct GtEntry {
    pub recipe_type: Option<Seq<char>>,
    pub duration_ticks: u32,
    pub parallels: u32,
    pub eut: Scalar,
    pub amperage: Scalar,
    pub energy_io: Option<EnergyIo>,
    pub tier: Option<Seq<char>>,
    pub tier_index: Option<u8>,
    pub voltage: Scalar,
    pub total_eu_t: Scalar,
    pub total_eu: Scalar,
}

/// A recipe, with its texts.
pub struct RecipeEntry {
    pub category: CategoryId,
    pub id: Seq<char>,
    pub inputs: Seq<SlotEntry>,
    pub outputs: Seq<SlotEntry>,
    pub gt: Option<GtEntry>,
}

/// A category, with its texts.
pub struct CategoryEntry {
    pub ty: Seq<char>,
    pub title: Seq<char>,
    pub recipe_class: Option<Seq<char>>,
    pub catalysts: Seq<(MaterialId, u64)>,
    pub recipe_count: nat,
}

/// What an export comes to, on its way.
pub struct Draft {
    /// The strings that were met.
    pub strings: Seq<Seq<char>>,
    pub materials: Seq<MaterialEntry>,
    pub recipes: Seq<RecipeEntry>,
    pub categories: Seq<CategoryEntry>,
}

/// The NBT that counts: an empty one is none.
pub open spec fn nbt_that_counts(nbt: Option<Seq<char>>) -> Option<Seq<char>> {
    match nbt {
        Some(n) if n.len() > 0 => Some(n),
        _ => None,
    }
}

/// The NBT that counts: an empty one is none.
pub fn norm_nbt(nbt: Option<&str>) -> (r: Option<&str>)
    ensures
        crate::graph::str_text(r) == nbt_that_counts(crate::graph::str_text(nbt)),
{
    match nbt {
        Some(n) => if n.is_empty() {
            None
        } else {
            Some(n)
        },
        None => None,
    }
}

/// The readable name of a material: the short id with blanks, marked when there
/// is NBT.
pub open spec fn display_of(id: Seq<char>, has_nbt: bool) -> Seq<char> {
    let name = crate::text::spaced(crate::text::after_colon(id));
    if has_nbt {
        name + " [NBT]"@
    } else {
        name
    }
}

/// The readable name of a material.
pub fn make_display(id: &str, has_nbt: bool) -> (r: String)
    ensures
        r@ == display_of(id@, has_nbt),
{
    let short = short_name(id);
    let name = underscores_to_blanks(short.as_str());
    if has_nbt {
        joined(name.as_str(), " [NBT]")
    } else {
        name
    }
}

/// The kind that a type name stands for.
pub open spec fn kind_of(ty: Seq<char>) -> KindText {
    if ty == "item"@ {
        KindText::Item
    } else if ty == "fluid"@ {
        KindText::Fluid
    } else {
        KindText::Other(ty)
    }
}

/// The number of the material with this kind, id and NBT.
pub open spec fn number_of(
    materials: Seq<MaterialEntry>,
    kind: KindText,
    id: Seq<char>,
    nbt: Option<Seq<char>>,
) -> Option<MaterialId>
    decreases materials.len(),
{
    if materials.len() == 0 {
        None
    } else if materials.last().kind == kind && materials.last().id == id && materials.last().nbt
        == nbt {
        Some((materials.len() - 1) as MaterialId)
    } else {
        number_of(materials.drop_last(), kind, id, nbt)
    }
}

/// The strings after the parts of a key were met.
pub open spec fn strings_with(
    strings: Seq<Seq<char>>,
    kind: KindText,
    id: Seq<char>,
    nbt: Option<Seq<char>>,
) -> Seq<Seq<char>> {
    let s1 = match kind {
        KindText::Other(t) => crate::intern::interned(strings, t),
        _ => strings,
    };
    let s2 = crate::intern::interned(s1, id);
    match nbt {
        Some(n) => crate::intern::interned(s2, n),
        None => s2,
    }
}

/// A material is met: what is there then, and the number of the material. None
/// where the numbers run out.
pub open spec fn with_material(
    d: Draft,
    ty: Seq<char>,
    id: Seq<char>,
    raw_nbt: Option<Seq<char>>,
) -> Option<(Draft, MaterialId)> {
    let kind = kind_of(ty);
    let nbt = nbt_that_counts(raw_nbt);
    let strings = strings_with(d.strings, kind, id, nbt);
    if strings.len() > u32::MAX {
        None
    } else {
        match number_of(d.materials, kind, id, nbt) {
            Some(m) => Some((Draft { strings, ..d }, m)),
            None => if d.materials.len() + d.recipes.len() + 1 >= u32::MAX {
                None
            } else {
                Some(
                    (
                        Draft {
                            strings,
                            materials: d.materials.push(
                                MaterialEntry { kind, id, nbt, display: display_of(id, nbt is Some) },
                            ),
                            ..d
                        },
                        d.materials.len() as MaterialId,
                    ),
                )
            },
        }
    }
}

/// The first text that is there.
pub open spec fn first_text(a: Option<Seq<char>>, b: Option<Seq<char>>) -> Seq<char> {
    match a {
        Some(t) => t,
        None => match b {
            Some(t) => t,
            None => "unknown"@,
        },
    }
}

/// The id that an ingredient goes by.
pub open spec fn ingredient_id(ing: RawIngredient) -> Seq<char> {
    let id = crate::graph::text_of(ing.id);
    if kind_of(ing.ty@) is Other {
        first_text(crate::graph::text_of(ing.value), id)
    } else {
        first_text(id, None)
    }
}

/// How much of an ingredient a slot takes: pieces of an item, mB of a fluid, one
/// of anything else.
pub open spec fn ingredient_qty(ing: RawIngredient) -> u64 {
    match kind_of(ing.ty@) {
        KindText::Item => match ing.count {
            Some(n) => n,
            None => 1,
        },
        KindText::Fluid => match ing.amount {
            Some(n) => n,
            None => 0,
        },
        KindText::Other(_) => 1,
    }
}

/// Some candidate is material `m`.
pub open spec fn offers(alts: Seq<(MaterialId, u64)>, m: MaterialId) -> bool {
    exists|a: int| 0 <= a < alts.len() && (#[trigger] alts[a]).0 == m
}

/// The candidates after one more: nothing of a material is no candidate, and a
/// material is a candidate once.
pub open spec fn with_candidate(
    alts: Seq<(MaterialId, u64)>,
    m: MaterialId,
    qty: u64,
) -> Seq<(MaterialId, u64)> {
    if qty == 0 || offers(alts, m) {
        alts
    } else {
        alts.push((m, qty))
    }
}

/// The candidates that the first `k` ingredients are.
pub open spec fn alts_to(d: Draft, ings: Seq<RawIngredient>, k: int) -> Option<
    (Draft, Seq<(MaterialId, u64)>),
>
    decreases k,
{
    if k <= 0 {
        Some((d, Seq::empty()))
    } else {
        match alts_to(d, ings, k - 1) {
            None => None,
            Some((e, alts)) => {
                let ing = ings[k - 1];
                match with_material(
                    e,
                    ing.ty@,
                    ingredient_id(ing),
                    crate::graph::text_of(ing.nbt),
                ) {
                    None => None,
                    Some((f, m)) => Some((f, with_candidate(alts, m, ingredient_qty(ing)))),
                }
            },
        }
    }
}

/// The slots that the first `k` slots of a recipe come to; those without
/// candidates are dropped.
pub open spec fn slots_to(d: Draft, raw: Seq<RawSlot>, k: int) -> Option<(Draft, Seq<SlotEntry>)>
    decreases k,
{
    if k <= 0 {
        Some((d, Seq::empty()))
    } else {
        match slots_to(d, raw, k - 1) {
            None => None,
            Some((e, slots)) => {
                let ings = raw[k - 1].ingredients@;
                match alts_to(e, ings, ings.len() as int) {
                    None => None,
                    Some((f, alts)) => Some(
                        (
                            f,
                            if alts.len() == 0 {
                                slots
                            } else {
                                slots.push(SlotEntry { name: raw[k - 1].name@, alts })
                            },
                        ),
                    ),
                }
            },
        }
    }
}

/// The direction of energy that a word stands for.
pub open spec fn energy_of(word: Option<Seq<char>>) -> Option<EnergyIo> {
    match word {
        Some(w) => if w == "in"@ {
            Some(EnergyIo::In)
        } else if w == "out"@ {
            Some(EnergyIo::Out)
        } else {
            None
        },
        None => None,
    }
}

/// The machine data that a recipe comes with.
pub open spec fn gt_of(raw: RawGt) -> GtEntry {
    GtEntry {
        recipe_type: crate::graph::text_of(raw.recipe_type),
        duration_ticks: raw.duration,
        parallels: raw.parallels,
        eut: raw.eut,
        amperage: raw.amperage,
        energy_io: energy_of(crate::graph::text_of(raw.energy_io)),
        tier: crate::graph::text_of(raw.tier),
        tier_index: raw.tier_index,
        voltage: raw.voltage,
        total_eu_t: raw.total_eu_t,
        total_eu: raw.total_eu,
    }
}

/// The id of a recipe: its own, or its place in its category.
pub open spec fn recipe_id(own: Seq<char>, category: Seq<char>, idx: nat) -> Seq<char> {
    if own.len() == 0 {
        category + "#"@ + crate::text::decimal(idx)
    } else {
        own
    }
}

/// A recipe is met.
pub open spec fn with_recipe(d: Draft, cid: CategoryId, ty: Seq<char>, idx: nat, raw: RawRecipe) -> Option<
    Draft,
> {
    match slots_to(d, raw.inputs@, raw.inputs@.len() as int) {
        None => None,
        Some((e, inputs)) => match slots_to(e, raw.outputs@, raw.outputs@.len() as int) {
            None => None,
            Some((f, outputs)) => if f.materials.len() + f.recipes.len() + 1 >= u32::MAX {
                None
            } else {
                Some(
                    Draft {
                        recipes: f.recipes.push(
                            RecipeEntry {
                                category: cid,
                                id: recipe_id(raw.id@, ty, idx),
                                inputs,
                                outputs,
                                gt: match raw.gt {
                                    Some(gt) => Some(gt_of(gt)),
                                    None => None,
                                },
                            },
                        ),
                        ..f
                    },
                )
            },
        },
    }
}

/// The catalysts that the first `k` are.
pub open spec fn catalysts_to(d: Draft, raw: Seq<crate::raw::RawCatalyst>, k: int) -> Option<
    (Draft, Seq<(MaterialId, u64)>),
>
    decreases k,
{
    if k <= 0 {
        Some((d, Seq::empty()))
    } else {
        match catalysts_to(d, raw, k - 1) {
            None => None,
            Some((e, list)) => match with_material(e, raw[k - 1].ty@, raw[k - 1].id@, None) {
                None => None,
                Some((f, m)) => Some(
                    (
                        f,
                        list.push(
                            (
                                m,
                                match raw[k - 1].count {
                                    Some(n) => n,
                                    None => 1,
                                },
                            ),
                        ),
                    ),
                ),
            },
        }
    }
}

/// The first `k` recipes of a category are met.
pub open spec fn recipes_to(d: Draft, cid: CategoryId, raw: RawCategory, k: int) -> Option<Draft>
    decreases k,
{
    if k <= 0 {
        Some(d)
    } else {
        match recipes_to(d, cid, raw, k - 1) {
            None => None,
            Some(e) => with_recipe(e, cid, raw.ty@, (k - 1) as nat, raw.recipes@[k - 1]),
        }
    }
}

/// A category is met.
pub open spec fn with_category(d: Draft, raw: RawCategory) -> Option<Draft> {
    if d.categories.len() >= u32::MAX {
        None
    } else {
        match catalysts_to(d, raw.catalysts@, raw.catalysts@.len() as int) {
            None => None,
            Some((e, catalysts)) => recipes_to(
                Draft {
                    categories: e.categories.push(
                        CategoryEntry {
                            ty: raw.ty@,
                            title: raw.title@,
                            recipe_class: crate::graph::text_of(raw.recipe_class),
                            catalysts,
                            recipe_count: raw.recipes@.len(),
                        },
                    ),
                    ..e
                },
                d.categories.len() as CategoryId,
                raw,
                raw.recipes@.len() as int,
            ),
        }
    }
}

/// The first `k` categories of an export come to this; none where the numbers
/// run out.
pub open spec fn draft_to(categories: Seq<RawCategory>, k: int) -> Option<Draft>
    decreases k,
{
    if k <= 0 {
        Some(
            Draft {
                strings: Seq::empty(),
                materials: Seq::empty(),
                recipes: Seq::empty(),
                categories: Seq::empty(),
            },
        )
    } else {
        match draft_to(categories, k - 1) {
            None => None,
            Some(d) => with_category(d, categories[k - 1]),
        }
    }
}

/// A kind, with the name of another type.
pub open spec fn kind_text(strings: Seq<Seq<char>>, kind: MaterialKind) -> KindText {
    match kind {
        MaterialKind::Item => KindText::Item,
        MaterialKind::Fluid => KindText::Fluid,
        MaterialKind::Other(s) => KindText::Other(strings[s as int]),
    }
}

/// The text of an optional number of a string.
pub open spec fn number_text(strings: Seq<Seq<char>>, n: Option<u32>) -> Option<Seq<char>> {
    match n {
        Some(i) => Some(strings[i as int]),
        None => None,
    }
}

/// A material, with its texts.
pub open spec fn material_entry(strings: Seq<Seq<char>>, info: MaterialInfo) -> MaterialEntry {
    MaterialEntry {
        kind: kind_text(strings, info.key.kind),
        id: strings[info.key.id as int],
        nbt: number_text(strings, info.key.nbt),
        display: info.display@,
    }
}

/// Slots, with their texts.
pub open spec fn slot_entries(slots: Seq<Slot>) -> Seq<SlotEntry> {
    slots.map_values(|s: Slot| SlotEntry { name: s.name@, alts: s.alts@ })
}

/// Machine data, with its texts.
pub open spec fn gt_entry(gt: Option<GtRecipeInfo>) -> Option<GtEntry> {
    match gt {
        Some(gt) => Some(
            GtEntry {
                recipe_type: crate::graph::text_of(gt.recipe_type),
                duration_ticks: gt.duration_ticks,
                parallels: gt.parallels,
                eut: gt.eut,
                amperage: gt.amperage,
                energy_io: gt.energy_io,
                tier: crate::graph::text_of(gt.tier),
                tier_index: gt.tier_index,
                voltage: gt.voltage,
                total_eu_t: gt.total_eu_t,
                total_eu: gt.total_eu,
            },
        ),
        None => None,
    }
}

/// A recipe, with its texts.
pub open spec fn recipe_entry(r: RecipeNode) -> RecipeEntry {
    RecipeEntry {
        category: r.category,
        id: r.id@,
        inputs: slot_entries(r.inputs@),
        outputs: slot_entries(r.outputs@),
        gt: gt_entry(r.gt),
    }
}

/// Catalysts as numbers.
pub open spec fn catalyst_pairs(list: Seq<Catalyst>) -> Seq<(MaterialId, u64)> {
    list.map_values(|c: Catalyst| (c.material, c.count))
}

/// A category, with its texts.
pub open spec fn category_entry(c: CategoryInfo) -> CategoryEntry {
    CategoryEntry {
        ty: c.ty@,
        title: c.title@,
        recipe_class: crate::graph::text_of(c.recipe_class),
        catalysts: catalyst_pairs(c.catalysts@),
        recipe_count: c.recipe_count as nat,
    }
}

/// What a graph holds, with its texts.
pub open spec fn draft_of(g: KnowledgeGraph) -> Draft {
    Draft {
        strings: g.strings@,
        materials: g.materials@.map_values(|i: MaterialInfo| material_entry(g.strings@, i)),
        recipes: g.recipes@.map_values(|r: RecipeNode| recipe_entry(r)),
        categories: g.categories@.map_values(|c: CategoryInfo| category_entry(c)),
    }
}

/// A graph that is being built is what its parts say it is; what is worked out at
/// the end is still missing.
spec fn growing(g: KnowledgeGraph) -> bool {
    &&& g.producers@.len() == g.m_count()
    &&& g.consumers@.len() == g.m_count()
    &&& g.recipe_index@.len() == g.categories@.len()
    &&& g.m_count() + g.r_count() < u32::MAX
    &&& g.categories@.len() <= u32::MAX
    &&& g.closed()
    &&& g.linked()
    &&& g.keyed()
    &&& g.recipes_indexed()
}

/// What the graph gets in the end did not change.
spec fn alike_rest(a: KnowledgeGraph, b: KnowledgeGraph) -> bool {
    &&& a.plannable == b.plannable
    &&& a.harvestable == b.harvestable
    &&& a.names == b.names
    &&& a.chances == b.chances
    &&& a.meta == b.meta
    &&& a.stats == b.stats
}

proof fn linked_same(a: KnowledgeGraph, b: KnowledgeGraph)
    requires
        a.linked(),
        a.materials@.len() == b.materials@.len(),
        a.recipes == b.recipes,
        a.producers == b.producers,
        a.consumers == b.consumers,
    ensures
        b.linked(),
{
    assert forall|m: int| 0 <= m < b.m_count() implies crate::graph::lists(
        (#[trigger] b.producers@[m])@,
        b.r_count(),
        |r: int| b.produces(r, m as u32),
    ) by {
        let p = |r: int| a.produces(r, m as u32);
        let q = |r: int| b.produces(r, m as u32);
        assert(crate::graph::lists(a.producers@[m]@, a.r_count(), p));
        assert forall|x: int| 0 <= x < b.r_count() && #[trigger] q(x) implies b.producers@[m]@.contains(
            x as u32,
        ) by {
            assert(p(x));
        }
        assert forall|k: int| 0 <= k < b.producers@[m]@.len() implies #[trigger] b.producers@[m]@[k]
            < b.r_count() && q(b.producers@[m]@[k] as int) by {
            assert(p(a.producers@[m]@[k] as int));
        }
    }
    assert forall|m: int| 0 <= m < b.m_count() implies crate::graph::lists(
        (#[trigger] b.consumers@[m])@,
        b.r_count(),
        |r: int| b.consumes(r, m as u32),
    ) by {
        let p = |r: int| a.consumes(r, m as u32);
        let q = |r: int| b.consumes(r, m as u32);
        assert(crate::graph::lists(a.consumers@[m]@, a.r_count(), p));
        assert forall|x: int| 0 <= x < b.r_count() && #[trigger] q(x) implies b.consumers@[m]@.contains(
            x as u32,
        ) by {
            assert(p(x));
        }
        assert forall|k: int| 0 <= k < b.consumers@[m]@.len() implies #[trigger] b.consumers@[m]@[k]
            < b.r_count() && q(b.consumers@[m]@[k] as int) by {
            assert(p(a.consumers@[m]@[k] as int));
        }
    }
}

/// Two materials with one kind, id and NBT have one key.
proof fn one_key(strings: Interner, a: MaterialKey, b: MaterialKey)
    requires
        strings.wf(),
        a.id < strings@.len(),
        b.id < strings@.len(),
        a.kind matches MaterialKind::Other(s) ==> s < strings@.len(),
        b.kind matches MaterialKind::Other(s) ==> s < strings@.len(),
        a.nbt matches Some(n) ==> n < strings@.len(),
        b.nbt matches Some(n) ==> n < strings@.len(),
        kind_text(strings@, a.kind) == kind_text(strings@, b.kind),
        strings@[a.id as int] == strings@[b.id as int],
        number_text(strings@, a.nbt) == number_text(strings@, b.nbt),
    ensures
        a == b,
{
    strings.distinct();
    match (a.kind, b.kind) {
        (MaterialKind::Other(x), MaterialKind::Other(y)) => {
            assert(strings@[x as int] == strings@[y as int]);
        },
        _ => {},
    }
}

proof fn number_found(
    materials: Seq<MaterialEntry>,
    kind: KindText,
    id: Seq<char>,
    nbt: Option<Seq<char>>,
    m: int,
)
    requires
        materials.len() <= u32::MAX,
        0 <= m < materials.len(),
        materials[m].kind == kind,
        materials[m].id == id,
        materials[m].nbt == nbt,
        forall|k: int|
            0 <= k < materials.len() && (#[trigger] materials[k]).kind == kind && materials[k].id == id
                && materials[k].nbt == nbt ==> k == m,
    ensures
        number_of(materials, kind, id, nbt) == Some(m as MaterialId),
    decreases materials.len(),
{
    let n = materials.len() - 1;
    if m < n {
        assert(materials[n] == materials.last());
        let short = materials.drop_last();
        assert(short[m] == materials[m]);
        assert forall|k: int|
            0 <= k < short.len() && (#[trigger] short[k]).kind == kind && short[k].id == id
                && short[k].nbt == nbt implies k == m by {
            assert(short[k] == materials[k]);
        }
        number_found(short, kind, id, nbt, m);
    }
}

proof fn number_missing(
    materials: Seq<MaterialEntry>,
    kind: KindText,
    id: Seq<char>,
    nbt: Option<Seq<char>>,
)
    requires
        forall|k: int|
            0 <= k < materials.len() ==> !((#[trigger] materials[k]).kind == kind && materials[k].id
                == id && materials[k].nbt == nbt),
    ensures
        number_of(materials, kind, id, nbt) is None,
    decreases materials.len(),
{
    if materials.len() > 0 {
        let n = materials.len() - 1;
        assert(materials[n] == materials.last());
        let short = materials.drop_last();
        assert forall|k: int| 0 <= k < short.len() implies !((#[trigger] short[k]).kind == kind
            && short[k].id == id && short[k].nbt == nbt) by {
            assert(short[k] == materials[k]);
        }
        number_missing(short, kind, id, nbt);
    }
}

/// More strings leave the texts of a key as they are.
proof fn texts_stay(old_strings: Seq<Seq<char>>, strings: Seq<Seq<char>>, info: MaterialInfo)
    requires
        old_strings.len() <= strings.len(),
        forall|i: int| 0 <= i < old_strings.len() ==> #[trigger] strings[i] == old_strings[i],
        info.key.id < old_strings.len(),
        info.key.kind matches MaterialKind::Other(s) ==> s < old_strings.len(),
        info.key.nbt matches Some(n) ==> n < old_strings.len(),
    ensures
        material_entry(strings, info) == material_entry(old_strings, info),
{
}

fn can_intern(strings: &Interner, s: &str) -> (r: bool)
    requires
        strings.wf(),
    ensures
        r == (crate::intern::interned(strings@, s@).len() <= u32::MAX),
{
    proof {
        strings.distinct();
    }
    strings.len() < u32::MAX as usize || strings.lookup(s).is_some()
}

/// Enters the parts of a key; none where the numbers run out.
fn intern_key(strings: &mut Interner, ty: &str, id: &str, nbt: Option<&str>) -> (r: Option<
    MaterialKey,
>)
    requires
        old(strings).wf(),
    ensures
        final(strings).wf(),
        old(strings)@.len() <= final(strings)@.len(),
        forall|i: int|
            0 <= i < old(strings)@.len() ==> #[trigger] final(strings)@[i] == old(strings)@[i],
        ({
            let kind = kind_of(ty@);
            let n = nbt_that_counts(crate::graph::str_text(nbt));
            let all = strings_with(old(strings)@, kind, id@, n);
            match r {
                Some(key) => {
                    &&& all.len() <= u32::MAX
                    &&& final(strings)@ == all
                    &&& key.id < all.len()
                    &&& key.kind matches MaterialKind::Other(s) ==> s < all.len()
                    &&& key.nbt matches Some(n) ==> n < all.len()
                    &&& kind_text(all, key.kind) == kind
                    &&& all[key.id as int] == id@
                    &&& number_text(all, key.nbt) == n
                },
                None => all.len() > u32::MAX,
            }
        }),
{
    let ghost s0 = strings@;
    let kind = if same(ty, "item") {
        MaterialKind::Item
    } else if same(ty, "fluid") {
        MaterialKind::Fluid
    } else {
        if !can_intern(strings, ty) {
            return None;
        }
        MaterialKind::Other(strings.intern(ty))
    };
    let ghost s1 = strings@;
    if !can_intern(strings, id) {
        return None;
    }
    let id_number: u32 = strings.intern(id);
    let ghost s2 = strings@;
    let nbt_number: Option<u32> = match norm_nbt(nbt) {
        Some(n) => {
            if !can_intern(strings, n) {
                return None;
            }
            Some(strings.intern(n))
        },
        None => None,
    };
    Some(MaterialKey { kind, id: id_number, nbt: nbt_number })
}

/// A slot that refers to materials below `n` refers to materials below more.
proof fn slots_ok_more(slots: Seq<Slot>, n: int, more: int)
    requires
        crate::graph::slots_ok(slots, n),
        n <= more,
    ensures
        crate::graph::slots_ok(slots, more),
{
    assert forall|s: int| 0 <= s < slots.len() implies crate::graph::slot_ok(
        #[trigger] slots[s],
        more,
    ) by {
        assert(crate::graph::slot_ok(slots[s], n));
    }
}

/// No slot mentions a material that is not there yet.
proof fn mentions_below(slots: Seq<Slot>, n: int, m: MaterialId)
    requires
        crate::graph::slots_ok(slots, n),
        n <= m,
    ensures
        !crate::graph::mentions(slots, m),
{
    assert forall|s: int, a: int| !#[trigger] crate::graph::mentions_at(slots, m, s, a) by {
        if 0 <= s < slots.len() && 0 <= a < slots[s].alts@.len() {
            assert(crate::graph::slot_ok(slots[s], n));
            assert(slots[s].alts@[a].0 < n);
        }
    }
}

/// The graph after a material was added is still what its parts say it is.
proof fn material_added(a: KnowledgeGraph, b: KnowledgeGraph, key: MaterialKey)
    requires
        growing(a),
        a.m_count() + a.r_count() + 1 < u32::MAX,
        b.strings.wf(),
        a.strings@.len() <= b.strings@.len(),
        b.key_ok(key),
        !a.index@.contains_key(crate::model::key_code(key) as u128),
        b.materials@.len() == a.materials@.len() + 1,
        forall|m: int| 0 <= m < a.m_count() ==> #[trigger] b.materials@[m] == a.materials@[m],
        b.materials@[a.m_count()].key == key,
        b.index@ == a.index@.insert(crate::model::key_code(key) as u128, a.m_count() as u32),
        b.recipes == a.recipes,
        b.recipe_index == a.recipe_index,
        b.categories == a.categories,
        b.producers@.len() == a.producers@.len() + 1,
        forall|m: int| 0 <= m < a.m_count() ==> #[trigger] b.producers@[m] == a.producers@[m],
        b.producers@[a.m_count()]@.len() == 0,
        b.consumers@.len() == a.consumers@.len() + 1,
        forall|m: int| 0 <= m < a.m_count() ==> #[trigger] b.consumers@[m] == a.consumers@[m],
        b.consumers@[a.m_count()]@.len() == 0,
    ensures
        growing(b),
{
    let n = a.m_count();
    assert(b.closed()) by {
        assert forall|r: int| 0 <= r < b.r_count() implies crate::graph::slots_ok(
            (#[trigger] b.recipes@[r]).inputs@,
            b.m_count(),
        ) && crate::graph::slots_ok(b.recipes@[r].outputs@, b.m_count()) && b.recipes@[r].category
            < b.categories@.len() by {
            assert(a.recipes@[r].category < a.categories@.len());
            slots_ok_more(a.recipes@[r].inputs@, n, n + 1);
            slots_ok_more(a.recipes@[r].outputs@, n, n + 1);
        }
        assert forall|c: int, k: int|
            0 <= c < b.categories@.len() && 0 <= k < b.categories@[c].catalysts@.len() implies (
        #[trigger] b.categories@[c].catalysts@[k]).material < b.m_count() by {
            assert(a.categories@[c].catalysts@[k].material < n);
        }
    }
    assert(b.linked()) by {
        assert forall|m: int| 0 <= m < b.m_count() implies crate::graph::lists(
            (#[trigger] b.producers@[m])@,
            b.r_count(),
            |r: int| b.produces(r, m as u32),
        ) by {
            let p = |r: int| a.produces(r, m as u32);
            let q = |r: int| b.produces(r, m as u32);
            if m < n {
                assert(crate::graph::lists(a.producers@[m]@, a.r_count(), p));
            }
            assert forall|x: int| 0 <= x < b.r_count() && #[trigger] q(
                x,
            ) implies b.producers@[m]@.contains(x as u32) by {
                if m < n {
                    assert(p(x));
                } else {
                    assert(crate::graph::slots_ok(a.recipes@[x].outputs@, n));
                    mentions_below(a.recipes@[x].outputs@, n, m as u32);
                }
            }
            assert forall|k: int| 0 <= k < b.producers@[m]@.len() implies #[trigger] b.producers@[m]@[k]
                < b.r_count() && q(b.producers@[m]@[k] as int) by {
                assert(p(a.producers@[m]@[k] as int));
            }
        }
        assert forall|m: int| 0 <= m < b.m_count() implies crate::graph::lists(
            (#[trigger] b.consumers@[m])@,
            b.r_count(),
            |r: int| b.consumes(r, m as u32),
        ) by {
            let p = |r: int| a.consumes(r, m as u32);
            let q = |r: int| b.consumes(r, m as u32);
            if m < n {
                assert(crate::graph::lists(a.consumers@[m]@, a.r_count(), p));
            }
            assert forall|x: int| 0 <= x < b.r_count() && #[trigger] q(
                x,
            ) implies b.consumers@[m]@.contains(x as u32) by {
                if m < n {
                    assert(p(x));
                } else {
                    assert(crate::graph::slots_ok(a.recipes@[x].inputs@, n));
                    mentions_below(a.recipes@[x].inputs@, n, m as u32);
                }
            }
            assert forall|k: int| 0 <= k < b.consumers@[m]@.len() implies #[trigger] b.consumers@[m]@[k]
                < b.r_count() && q(b.consumers@[m]@[k] as int) by {
                assert(p(a.consumers@[m]@[k] as int));
            }
        }
    }
    assert(b.keyed()) by {
        let code = crate::model::key_code(key) as u128;
        crate::model::key_code_injective(key, key);
        assert forall|m: int| 0 <= m < b.m_count() implies b.key_ok(
            (#[trigger] b.materials@[m]).key,
        ) by {
            if m < n {
                assert(a.key_ok(a.materials@[m].key));
            }
        }
        assert forall|m: int| 0 <= m < b.m_count() implies b.index@.contains_pair(
            crate::model::key_code((#[trigger] b.materials@[m]).key) as u128,
            m as u32,
        ) by {
            if m < n {
                let c = crate::model::key_code(a.materials@[m].key) as u128;
                crate::model::key_code_injective(a.materials@[m].key, key);
                assert(a.index@.contains_pair(c, m as u32));
                assert(c != code);
            }
        }
        assert forall|c: u128| #[trigger] b.index@.contains_key(c) implies b.index@[c]
            < b.m_count() && crate::model::key_code(b.materials@[b.index@[c] as int].key) == c by {
            if c != code {
                assert(a.index@.contains_key(c));
            }
        }
    }
    assert(b.recipes_indexed()) by {
        assert forall|r: int| 0 <= r < b.r_count() implies b.recipe_index@[(
        #[trigger] b.recipes@[r]).category as int]@.contains_key(b.recipes@[r].id@) && r
            <= b.recipe_index@[b.recipes@[r].category as int]@[b.recipes@[r].id@] by {
            assert(a.recipes@[r].category < a.categories@.len());
        }
        assert forall|c: int, id: Seq<char>|
            0 <= c < b.categories@.len() && #[trigger] b.recipe_index@[c]@.contains_key(
                id,
            ) implies b.is_recipe(b.recipe_index@[c]@[id] as int, c as u32, id) by {
            assert(a.recipe_index@[c]@.contains_key(id));
            assert(a.is_recipe(a.recipe_index@[c]@[id] as int, c as u32, id));
        }
    }
}

/// The graph after more strings were met is still what its parts say it is.
proof fn strings_added(a: KnowledgeGraph, b: KnowledgeGraph)
    requires
        growing(a),
        b.strings.wf(),
        a.strings@.len() <= b.strings@.len(),
        b.materials == a.materials,
        b.index == a.index,
        b.recipes == a.recipes,
        b.recipe_index == a.recipe_index,
        b.categories == a.categories,
        b.producers == a.producers,
        b.consumers == a.consumers,
    ensures
        growing(b),
{
    linked_same(a, b);
    assert(b.closed()) by {
        assert forall|r: int| 0 <= r < b.r_count() implies crate::graph::slots_ok(
            (#[trigger] b.recipes@[r]).inputs@,
            b.m_count(),
        ) && crate::graph::slots_ok(b.recipes@[r].outputs@, b.m_count()) && b.recipes@[r].category
            < b.categories@.len() by {
            assert(a.recipes@[r].category < a.categories@.len());
        }
        assert forall|c: int, k: int|
            0 <= c < b.categories@.len() && 0 <= k < b.categories@[c].catalysts@.len() implies (
        #[trigger] b.categories@[c].catalysts@[k]).material < b.m_count() by {
            assert(a.categories@[c].catalysts@[k].material < a.m_count());
        }
    }
    assert(b.keyed()) by {
        assert forall|m: int| 0 <= m < b.m_count() implies b.key_ok(
            (#[trigger] b.materials@[m]).key,
        ) by {
            assert(a.key_ok(a.materials@[m].key));
        }
    }
    assert(b.recipes_indexed()) by {
        assert forall|c: int, id: Seq<char>|
            0 <= c < b.categories@.len() && #[trigger] b.recipe_index@[c]@.contains_key(
                id,
            ) implies b.is_recipe(b.recipe_index@[c]@[id] as int, c as u32, id) by {
            assert(a.recipe_index@[c]@.contains_key(id));
            assert(a.is_recipe(a.recipe_index@[c]@[id] as int, c as u32, id));
        }
    }
}

/// The material of a kind, an id and NBT; it is added if it is not there. None
/// where the numbers run out.
fn intern_material(g: &mut KnowledgeGraph, ty: &str, id: &str, nbt: Option<&str>) -> (r: Option<
    MaterialId,
>)
    requires
        growing(*old(g)),
    ensures
        match r {
            Some(m) => {
                &&& growing(*final(g))
                &&& m < final(g).m_count()
                &&& final(g).m_count() >= old(g).m_count()
                &&& with_material(
                    draft_of(*old(g)),
                    ty@,
                    id@,
                    crate::graph::str_text(nbt),
                ) == Some((draft_of(*final(g)), m))
            },
            None => with_material(
                draft_of(*old(g)),
                ty@,
                id@,
                crate::graph::str_text(nbt),
            ) is None,
        },
        final(g).recipes == old(g).recipes,
        final(g).recipe_index == old(g).recipe_index,
        final(g).categories == old(g).categories,
        alike_rest(*final(g), *old(g)),
{
    broadcast use vstd::std_specs::hash::group_hash_axioms;

    let ghost a = *g;
    let ghost d = draft_of(a);
    let ghost kind = kind_of(ty@);
    let ghost n = nbt_that_counts(crate::graph::str_text(nbt));
    let key = match intern_key(&mut g.strings, ty, id, nbt) {
        Some(key) => key,
        None => {
            return None;
        },
    };
    let ghost b = *g;
    proof {
        strings_added(a, b);
        assert(draft_of(b).materials =~= d.materials) by {
            assert forall|m: int| 0 <= m < a.m_count() implies #[trigger] draft_of(b).materials[m]
                == d.materials[m] by {
                assert(a.key_ok(a.materials@[m].key));
                texts_stay(a.strings@, b.strings@, a.materials@[m]);
            }
        }
        assert(draft_of(b) == (Draft { strings: b.strings@, ..d }));
        crate::model::key_code_injective(key, key);
    }
    let code: u128 = key.code();
    if let Some(found) = g.index.get(&code) {
        let m: u32 = *found;
        proof {
            assert(b.index@.contains_key(code));
            crate::model::key_code_injective(b.materials@[m as int].key, key);
            assert forall|k: int|
                0 <= k < d.materials.len() && (#[trigger] d.materials[k]).kind == kind
                    && d.materials[k].id == id@ && d.materials[k].nbt == n implies k == m by {
                assert(draft_of(b).materials[k] == material_entry(b.strings@, b.materials@[k]));
                assert(b.key_ok(b.materials@[k].key));
                one_key(b.strings, b.materials@[k].key, key);
                assert(b.index@.contains_pair(
                    crate::model::key_code(b.materials@[k].key) as u128,
                    k as u32,
                ));
            }
            assert(draft_of(b).materials[m as int] == material_entry(
                b.strings@,
                b.materials@[m as int],
            ));
            number_found(d.materials, kind, id@, n, m as int);
        }
        return Some(m);
    }
    proof {
        assert forall|k: int| 0 <= k < d.materials.len() implies !((
        #[trigger] d.materials[k]).kind == kind && d.materials[k].id == id@ && d.materials[k].nbt
            == n) by {
            if d.materials[k].kind == kind && d.materials[k].id == id@ && d.materials[k].nbt == n {
                assert(draft_of(b).materials[k] == material_entry(b.strings@, b.materials@[k]));
                assert(b.key_ok(b.materials@[k].key));
                one_key(b.strings, b.materials@[k].key, key);
                assert(b.index@.contains_pair(
                    crate::model::key_code(b.materials@[k].key) as u128,
                    k as u32,
                ));
            }
        }
        number_missing(d.materials, kind, id@, n);
    }
    if g.materials.len() + g.recipes.len() + 1 >= u32::MAX as usize {
        return None;
    }
    let m: u32 = g.materials.len() as u32;
    let display = make_display(id, key.nbt.is_some());
    g.materials.push(MaterialInfo { key, display });
    g.index.insert(code, m);
    g.producers.push(Vec::new());
    g.consumers.push(Vec::new());
    proof {
        let c = *g;
        material_added(b, c, key);
        let e = MaterialEntry { kind, id: id@, nbt: n, display: display_of(id@, n is Some) };
        assert(draft_of(c).materials =~= d.materials.push(e)) by {
            assert forall|k: int| 0 <= k < b.m_count() implies #[trigger] draft_of(c).materials[k]
                == d.materials[k] by {
                assert(draft_of(b).materials[k] == material_entry(b.strings@, b.materials@[k]));
            }
        }
    }
    Some(m)
}

fn option_str(s: &Option<String>) -> (r: Option<&str>)
    ensures
        crate::graph::str_text(r) == crate::graph::text_of(*s),
{
    match s {
        Some(t) => Some(t.as_str()),
        None => None,
    }
}

fn or_unknown<'a>(a: Option<&'a str>, b: Option<&'a str>) -> (r: &'a str)
    ensures
        r@ == first_text(crate::graph::str_text(a), crate::graph::str_text(b)),
{
    match a {
        Some(t) => t,
        None => match b {
            Some(t) => t,
            None => "unknown",
        },
    }
}

/// The material of an ingredient, and how much of it.
fn ingredient_material(g: &mut KnowledgeGraph, ing: &RawIngredient) -> (r: Option<(MaterialId, u64)>)
    requires
        growing(*old(g)),
    ensures
        match r {
            Some((m, qty)) => {
                &&& growing(*final(g))
                &&& m < final(g).m_count()
                &&& final(g).m_count() >= old(g).m_count()
                &&& qty == ingredient_qty(*ing)
                &&& with_material(
                    draft_of(*old(g)),
                    ing.ty@,
                    ingredient_id(*ing),
                    crate::graph::text_of(ing.nbt),
                ) == Some((draft_of(*final(g)), m))
            },
            None => with_material(
                draft_of(*old(g)),
                ing.ty@,
                ingredient_id(*ing),
                crate::graph::text_of(ing.nbt),
            ) is None,
        },
        final(g).recipes == old(g).recipes,
        final(g).recipe_index == old(g).recipe_index,
        final(g).categories == old(g).categories,
        alike_rest(*final(g), *old(g)),
{
    let ty = ing.ty.as_str();
    let nbt = option_str(&ing.nbt);
    if same(ty, "item") {
        let id = or_unknown(option_str(&ing.id), None);
        let qty: u64 = match ing.count {
            Some(n) => n,
            None => 1,
        };
        match intern_material(g, ty, id, nbt) {
            Some(m) => Some((m, qty)),
            None => None,
        }
    } else if same(ty, "fluid") {
        let id = or_unknown(option_str(&ing.id), None);
        let qty: u64 = match ing.amount {
            Some(n) => n,
            None => 0,
        };
        match intern_material(g, ty, id, nbt) {
            Some(m) => Some((m, qty)),
            None => None,
        }
    } else {
        let id = or_unknown(option_str(&ing.value), option_str(&ing.id));
        match intern_material(g, ty, id, nbt) {
            Some(m) => Some((m, 1)),
            None => None,
        }
    }
}

fn is_offered(alts: &Vec<(MaterialId, u64)>, m: MaterialId) -> (r: bool)
    ensures
        r == offers(alts@, m),
{
    let mut i: usize = 0;
    while i < alts.len()
        invariant
            i <= alts@.len(),
            forall|a: int| 0 <= a < i ==> (#[trigger] alts@[a]).0 != m,
        decreases alts@.len() - i,
    {
        if alts[i].0 == m {
            return true;
        }
        i += 1;
    }
    false
}

/// Candidates are different materials below `n`, each in some quantity.
spec fn alts_ok(alts: Seq<(MaterialId, u64)>, n: int) -> bool {
    &&& forall|a: int| 0 <= a < alts.len() ==> (#[trigger] alts[a]).0 < n && alts[a].1 > 0
    &&& forall|a: int, b: int|
        0 <= a < b < alts.len() ==> (#[trigger] alts[a]).0 != (#[trigger] alts[b]).0
}

fn build_alts(g: &mut KnowledgeGraph, ings: &Vec<RawIngredient>) -> (r: Option<
    Vec<(MaterialId, u64)>,
>)
    requires
        growing(*old(g)),
    ensures
        match r {
            Some(alts) => {
                &&& growing(*final(g))
                &&& final(g).m_count() >= old(g).m_count()
                &&& alts_ok(alts@, final(g).m_count())
                &&& alts_to(draft_of(*old(g)), ings@, ings@.len() as int) == Some(
                    (draft_of(*final(g)), alts@),
                )
            },
            None => alts_to(draft_of(*old(g)), ings@, ings@.len() as int) is None,
        },
        final(g).recipes == old(g).recipes,
        final(g).recipe_index == old(g).recipe_index,
        final(g).categories == old(g).categories,
        alike_rest(*final(g), *old(g)),
{
    let ghost d = draft_of(*g);
    let mut alts: Vec<(MaterialId, u64)> = Vec::new();
    let mut k: usize = 0;
    while k < ings.len()
        invariant
            k <= ings@.len(),
            growing(*g),
            d == draft_of(*old(g)),
            g.m_count() >= old(g).m_count(),
            alts_ok(alts@, g.m_count()),
            alts_to(d, ings@, k as int) == Some((draft_of(*g), alts@)),
            g.recipes == old(g).recipes,
            g.recipe_index == old(g).recipe_index,
            g.categories == old(g).categories,
            alike_rest(*g, *old(g)),
        decreases ings@.len() - k,
    {
        match ingredient_material(g, &ings[k]) {
            Some((m, qty)) => {
                if qty != 0 && !is_offered(&alts, m) {
                    alts.push((m, qty));
                }
            },
            None => {
                proof {
                    alts_stay_none(d, ings@, k + 1, ings@.len() as int);
                }
                return None;
            },
        }
        k += 1;
    }
    Some(alts)
}

proof fn alts_stay_none(d: Draft, ings: Seq<RawIngredient>, k: int, n: int)
    requires
        alts_to(d, ings, k) is None,
        k <= n,
    ensures
        alts_to(d, ings, n) is None,
    decreases n - k,
{
    if k < n {
        alts_stay_none(d, ings, k, n - 1);
    }
}

proof fn slots_stay_none(d: Draft, raw: Seq<RawSlot>, k: int, n: int)
    requires
        slots_to(d, raw, k) is None,
        k <= n,
    ensures
        slots_to(d, raw, n) is None,
    decreases n - k,
{
    if k < n {
        slots_stay_none(d, raw, k, n - 1);
    }
}

/// The slots of a recipe.
fn build_slots(g: &mut KnowledgeGraph, raw: &Vec<RawSlot>) -> (r: Option<Vec<Slot>>)
    requires
        growing(*old(g)),
    ensures
        match r {
            Some(slots) => {
                &&& growing(*final(g))
                &&& final(g).m_count() >= old(g).m_count()
                &&& crate::graph::slots_ok(slots@, final(g).m_count())
                &&& slots_to(draft_of(*old(g)), raw@, raw@.len() as int) == Some(
                    (draft_of(*final(g)), slot_entries(slots@)),
                )
            },
            None => slots_to(draft_of(*old(g)), raw@, raw@.len() as int) is None,
        },
        final(g).recipes == old(g).recipes,
        final(g).recipe_index == old(g).recipe_index,
        final(g).categories == old(g).categories,
        alike_rest(*final(g), *old(g)),
{
    let ghost d = draft_of(*g);
    let mut slots: Vec<Slot> = Vec::new();
    assert(slot_entries(slots@) =~= Seq::empty());
    let mut k: usize = 0;
    while k < raw.len()
        invariant
            k <= raw@.len(),
            growing(*g),
            d == draft_of(*old(g)),
            g.m_count() >= old(g).m_count(),
            crate::graph::slots_ok(slots@, g.m_count()),
            slots_to(d, raw@, k as int) == Some((draft_of(*g), slot_entries(slots@))),
            g.recipes == old(g).recipes,
            g.recipe_index == old(g).recipe_index,
            g.categories == old(g).categories,
            alike_rest(*g, *old(g)),
        decreases raw@.len() - k,
    {
        let ghost n = g.m_count();
        match build_alts(g, &raw[k].ingredients) {
            Some(alts) => {
                proof {
                    slots_ok_more(slots@, n, g.m_count());
                }
                if alts.len() > 0 {
                    let ghost before = slot_entries(slots@);
                    let slot = Slot { name: raw[k].name.clone(), alts };
                    let ghost had = slots@;
                    let ghost entry = SlotEntry { name: slot.name@, alts: slot.alts@ };
                    assert(crate::graph::slot_ok(slot, g.m_count()));
                    slots.push(slot);
                    assert(slot_entries(slots@) =~= before.push(entry));
                    assert forall|s: int| 0 <= s < slots@.len() implies crate::graph::slot_ok(
                        #[trigger] slots@[s],
                        g.m_count(),
                    ) by {
                        if s < had.len() {
                            assert(crate::graph::slot_ok(had[s], g.m_count()));
                        }
                    }
                }
            },
            None => {
                proof {
                    slots_stay_none(d, raw@, k + 1, raw@.len() as int);
                }
                return None;
            },
        }
        k += 1;
    }
    Some(slots)
}

/// Material `m` is mentioned before candidate `a` of slot `s`.
spec fn met(slots: Seq<Slot>, m: MaterialId, s: int, a: int) -> bool {
    exists|i: int, j: int| #[trigger]
        crate::graph::mentions_at(slots, m, i, j) && (i < s || (i == s && j < a))
}

/// A list after a recipe, where that mentions the material.
spec fn listed(list: Seq<RecipeId>, rid: RecipeId, mentioned: bool) -> Seq<RecipeId> {
    if mentioned {
        list.push(rid)
    } else {
        list
    }
}

/// Notes a recipe in the lists of the materials that its slots mention.
fn link(lists: &mut Vec<Vec<RecipeId>>, slots: &Vec<Slot>, rid: RecipeId)
    requires
        crate::graph::slots_ok(slots@, old(lists)@.len() as int),
        old(lists)@.len() <= u32::MAX,
        forall|m: int, k: int|
            #![trigger old(lists)@[m]@[k]]
            0 <= m < old(lists)@.len() && 0 <= k < old(lists)@[m]@.len() ==> old(lists)@[m]@[k]
                < rid,
    ensures
        final(lists)@.len() == old(lists)@.len(),
        forall|m: int|
            0 <= m < old(lists)@.len() ==> (#[trigger] final(lists)@[m])@ == listed(
                old(lists)@[m]@,
                rid,
                crate::graph::mentions(slots@, m as u32),
            ),
{
    let ghost start = lists@;
    let ghost items = slots@;
    let mut s: usize = 0;
    assert forall|m: int| 0 <= m < start.len() implies (#[trigger] lists@[m])@ == listed(
        start[m]@,
        rid,
        met(items, m as u32, 0, 0),
    ) by {
        assert(!met(items, m as u32, 0, 0));
    }
    while s < slots.len()
        invariant
            s <= slots@.len(),
            items == slots@,
            start.len() <= u32::MAX,
            crate::graph::slots_ok(items, start.len() as int),
            forall|m: int, k: int|
                #![trigger start[m]@[k]]
                0 <= m < start.len() && 0 <= k < start[m]@.len() ==> start[m]@[k] < rid,
            lists@.len() == start.len(),
            forall|m: int|
                0 <= m < start.len() ==> (#[trigger] lists@[m])@ == listed(
                    start[m]@,
                    rid,
                    met(items, m as u32, s as int, 0),
                ),
        decreases slots@.len() - s,
    {
        assert(crate::graph::slot_ok(items[s as int], start.len() as int));
        let alts = &slots[s].alts;
        let mut a: usize = 0;
        while a < alts.len()
            invariant
                a <= alts@.len(),
                s < slots@.len(),
                items == slots@,
                alts@ == items[s as int].alts@,
                start.len() <= u32::MAX,
                crate::graph::slot_ok(items[s as int], start.len() as int),
                forall|m: int, k: int|
                    #![trigger start[m]@[k]]
                    0 <= m < start.len() && 0 <= k < start[m]@.len() ==> start[m]@[k] < rid,
                lists@.len() == start.len(),
                forall|m: int|
                    0 <= m < start.len() ==> (#[trigger] lists@[m])@ == listed(
                        start[m]@,
                        rid,
                        met(items, m as u32, s as int, a as int),
                    ),
            decreases alts@.len() - a,
        {
            let (m, _): (u32, u64) = alts[a];
            let at: usize = m as usize;
            assert(alts@[a as int].0 < start.len());
            let ghost had = lists@;
            let ghost known = met(items, m, s as int, a as int);
            let n: usize = lists[at].len();
            assert(lists@[at as int]@ == listed(start[at as int]@, rid, known));
            if n == 0 || lists[at][n - 1] != rid {
                lists[at].push(rid);
            }
            proof {
                if !known && n > 0 {
                    assert(start[at as int]@[n - 1] < rid);
                }
                assert(crate::graph::mentions_at(items, m, s as int, a as int));
                assert(met(items, m, s as int, a + 1));
                assert forall|x: int| 0 <= x < start.len() implies (#[trigger] lists@[x])@
                    == listed(start[x]@, rid, met(items, x as u32, s as int, a + 1)) by {
                    if x != m {
                        assert(lists@[x] == had[x]);
                        assert(x as u32 != m);
                        met_next(items, x as u32, s as int, a as int);
                    }
                }
            }
            a += 1;
        }
        proof {
            assert forall|x: int| 0 <= x < start.len() implies (#[trigger] lists@[x])@ == listed(
                start[x]@,
                rid,
                met(items, x as u32, s + 1, 0),
            ) by {
                met_slot(items, x as u32, s as int);
            }
        }
        s += 1;
    }
    assert forall|m: int| 0 <= m < start.len() implies (#[trigger] lists@[m])@ == listed(
        start[m]@,
        rid,
        crate::graph::mentions(items, m as u32),
    ) by {
        met_all(items, m as u32);
    }
}

/// A list of recipes with one more.
proof fn lists_more(
    list: Seq<u32>,
    n: int,
    p: spec_fn(int) -> bool,
    q: spec_fn(int) -> bool,
)
    requires
        crate::graph::lists(list, n, p),
        0 <= n < u32::MAX,
        forall|x: int| 0 <= x < n ==> #[trigger] p(x) == q(x),
    ensures
        crate::graph::lists(listed(list, n as u32, q(n)), n + 1, q),
{
    let next = listed(list, n as u32, q(n));
    assert forall|a: int| 0 <= a < next.len() implies #[trigger] next[a] < n + 1 && q(
        next[a] as int,
    ) by {
        if a < list.len() {
            assert(list[a] < n && p(list[a] as int));
        }
    }
    assert forall|x: int| 0 <= x < n + 1 && #[trigger] q(x) implies next.contains(x as u32) by {
        if x < n {
            assert(p(x));
            assert(list.contains(x as u32));
            let k = choose|k: int| 0 <= k < list.len() && list[k] == x as u32;
            assert(next[k] == x as u32);
        } else {
            assert(next[next.len() - 1] == x as u32);
        }
    }
    assert forall|a: int, b: int| 0 <= a < b < next.len() implies #[trigger] next[a]
        < #[trigger] next[b] by {
        if b < list.len() {
            assert(list[a] < list[b]);
        } else {
            assert(list[a] < n);
        }
    }
}

/// The graph after a recipe was added is still what its parts say it is.
proof fn recipe_added(a: KnowledgeGraph, b: KnowledgeGraph, r: RecipeNode)
    requires
        growing(a),
        a.m_count() + a.r_count() + 1 < u32::MAX,
        crate::graph::slots_ok(r.inputs@, a.m_count()),
        crate::graph::slots_ok(r.outputs@, a.m_count()),
        r.category < a.categories@.len(),
        b.strings == a.strings,
        b.materials == a.materials,
        b.index == a.index,
        b.categories == a.categories,
        b.recipes@ == a.recipes@.push(r),
        b.recipe_index@.len() == a.recipe_index@.len(),
        forall|c: int|
            0 <= c < a.categories@.len() && c != r.category ==> #[trigger] b.recipe_index@[c]
                == a.recipe_index@[c],
        b.recipe_index@[r.category as int]@ == a.recipe_index@[r.category as int]@.insert(
            r.id@,
            a.r_count() as u32,
        ),
        b.producers@.len() == a.producers@.len(),
        forall|m: int|
            0 <= m < a.m_count() ==> (#[trigger] b.producers@[m])@ == listed(
                a.producers@[m]@,
                a.r_count() as u32,
                crate::graph::mentions(r.outputs@, m as u32),
            ),
        b.consumers@.len() == a.consumers@.len(),
        forall|m: int|
            0 <= m < a.m_count() ==> (#[trigger] b.consumers@[m])@ == listed(
                a.consumers@[m]@,
                a.r_count() as u32,
                crate::graph::mentions(r.inputs@, m as u32),
            ),
    ensures
        growing(b),
{
    let n = a.r_count();
    assert(b.recipes@[n] == r);
    assert forall|x: int| 0 <= x < n implies #[trigger] b.recipes@[x] == a.recipes@[x] by {}
    assert(b.closed()) by {
        assert forall|x: int| 0 <= x < b.r_count() implies crate::graph::slots_ok(
            (#[trigger] b.recipes@[x]).inputs@,
            b.m_count(),
        ) && crate::graph::slots_ok(b.recipes@[x].outputs@, b.m_count()) && b.recipes@[x].category
            < b.categories@.len() by {
            if x < n {
                assert(a.recipes@[x].category < a.categories@.len());
            }
        }
        assert forall|c: int, k: int|
            0 <= c < b.categories@.len() && 0 <= k < b.categories@[c].catalysts@.len() implies (
        #[trigger] b.categories@[c].catalysts@[k]).material < b.m_count() by {
            assert(a.categories@[c].catalysts@[k].material < a.m_count());
        }
    }
    assert(b.linked()) by {
        assert forall|m: int| 0 <= m < b.m_count() implies crate::graph::lists(
            (#[trigger] b.producers@[m])@,
            b.r_count(),
            |x: int| b.produces(x, m as u32),
        ) by {
            let p = |x: int| a.produces(x, m as u32);
            let q = |x: int| b.produces(x, m as u32);
            assert(crate::graph::lists(a.producers@[m]@, a.r_count(), p));
            lists_more(a.producers@[m]@, n, p, q);
        }
        assert forall|m: int| 0 <= m < b.m_count() implies crate::graph::lists(
            (#[trigger] b.consumers@[m])@,
            b.r_count(),
            |x: int| b.consumes(x, m as u32),
        ) by {
            let p = |x: int| a.consumes(x, m as u32);
            let q = |x: int| b.consumes(x, m as u32);
            assert(crate::graph::lists(a.consumers@[m]@, a.r_count(), p));
            lists_more(a.consumers@[m]@, n, p, q);
        }
    }
    assert(b.keyed()) by {
        assert forall|m: int| 0 <= m < b.m_count() implies b.key_ok(
            (#[trigger] b.materials@[m]).key,
        ) by {
            assert(a.key_ok(a.materials@[m].key));
        }
    }
    assert(b.recipes_indexed()) by {
        assert forall|x: int| 0 <= x < b.r_count() implies b.recipe_index@[(
        #[trigger] b.recipes@[x]).category as int]@.contains_key(b.recipes@[x].id@) && x
            <= b.recipe_index@[b.recipes@[x].category as int]@[b.recipes@[x].id@] by {
            if x < n {
                assert(a.recipes@[x].category < a.categories@.len());
                assert(a.recipe_index@[a.recipes@[x].category as int]@.contains_key(
                    a.recipes@[x].id@,
                ));
            }
        }
        assert forall|c: int, id: Seq<char>|
            0 <= c < b.categories@.len() && #[trigger] b.recipe_index@[c]@.contains_key(
                id,
            ) implies b.is_recipe(b.recipe_index@[c]@[id] as int, c as u32, id) by {
            if c == r.category && id == r.id@ {
                assert(b.is_recipe(n, c as u32, id));
            } else {
                assert(a.recipe_index@[c]@.contains_key(id));
                assert(a.is_recipe(a.recipe_index@[c]@[id] as int, c as u32, id));
            }
        }
    }
}

/// The machine data of a recipe.
fn read_gt(raw: &Option<RawGt>) -> (r: Option<GtRecipeInfo>)
    ensures
        gt_entry(r) == match *raw {
            Some(gt) => Some(gt_of(gt)),
            None => None,
        },
{
    match raw {
        Some(gt) => {
            let energy_io = match option_str(&gt.energy_io) {
                Some(word) => if same(word, "in") {
                    Some(EnergyIo::In)
                } else if same(word, "out") {
                    Some(EnergyIo::Out)
                } else {
                    None
                },
                None => None,
            };
            Some(
                GtRecipeInfo {
                    recipe_type: copy_option(&gt.recipe_type),
                    duration_ticks: gt.duration,
                    parallels: gt.parallels,
                    eut: gt.eut,
                    amperage: gt.amperage,
                    energy_io,
                    tier: copy_option(&gt.tier),
                    tier_index: gt.tier_index,
                    voltage: gt.voltage,
                    total_eu_t: gt.total_eu_t,
                    total_eu: gt.total_eu,
                },
            )
        },
        None => None,
    }
}

/// Adds a recipe; false where the numbers run out.
fn add_recipe(g: &mut KnowledgeGraph, cid: CategoryId, cat_ty: &str, idx: usize, raw: &RawRecipe) -> (r:
    bool)
    requires
        growing(*old(g)),
        cid < old(g).categories@.len(),
    ensures
        r ==> growing(*final(g)) && with_recipe(
            draft_of(*old(g)),
            cid,
            cat_ty@,
            idx as nat,
            *raw,
        ) == Some(draft_of(*final(g))),
        !r ==> with_recipe(draft_of(*old(g)), cid, cat_ty@, idx as nat, *raw) is None,
        final(g).categories == old(g).categories,
        alike_rest(*final(g), *old(g)),
{
    let inputs = match build_slots(g, &raw.inputs) {
        Some(slots) => slots,
        None => {
            return false;
        },
    };
    let ghost n = g.m_count();
    let outputs = match build_slots(g, &raw.outputs) {
        Some(slots) => slots,
        None => {
            return false;
        },
    };
    proof {
        slots_ok_more(inputs@, n, g.m_count());
    }
    if g.materials.len() + g.recipes.len() + 1 >= u32::MAX as usize {
        return false;
    }
    let ghost a = *g;
    let rid: u32 = g.recipes.len() as u32;
    proof {
        lists_below(a);
    }
    link(&mut g.consumers, &inputs, rid);
    link(&mut g.producers, &outputs, rid);
    let id = if raw.id.as_str().is_empty() {
        let start = joined(cat_ty, "#");
        joined(start.as_str(), decimal_string(idx as u64).as_str())
    } else {
        raw.id.clone()
    };
    let at: usize = cid as usize;
    g.recipe_index[at].insert(id.clone(), rid);
    let node = RecipeNode { category: cid, id, inputs, outputs, gt: read_gt(&raw.gt) };
    let ghost shown = node;
    g.recipes.push(node);
    proof {
        recipe_added(a, *g, shown);
        assert(draft_of(*g).recipes =~= draft_of(a).recipes.push(recipe_entry(shown)));
        assert(draft_of(*g).materials =~= draft_of(a).materials);
    }
    true
}

/// The lists hold only recipes that are there.
proof fn lists_below(g: KnowledgeGraph)
    requires
        growing(g),
    ensures
        forall|m: int, k: int|
            #![trigger g.producers@[m]@[k]]
            0 <= m < g.m_count() && 0 <= k < g.producers@[m]@.len() ==> g.producers@[m]@[k]
                < g.r_count(),
        forall|m: int, k: int|
            #![trigger g.consumers@[m]@[k]]
            0 <= m < g.m_count() && 0 <= k < g.consumers@[m]@.len() ==> g.consumers@[m]@[k]
                < g.r_count(),
{
    assert forall|m: int, k: int|
        #![trigger g.producers@[m]@[k]]
        0 <= m < g.m_count() && 0 <= k < g.producers@[m]@.len() implies g.producers@[m]@[k]
        < g.r_count() by {
        let p = |r: int| g.produces(r, m as u32);
        assert(crate::graph::lists(g.producers@[m]@, g.r_count(), p));
    }
    assert forall|m: int, k: int|
        #![trigger g.consumers@[m]@[k]]
        0 <= m < g.m_count() && 0 <= k < g.consumers@[m]@.len() implies g.consumers@[m]@[k]
        < g.r_count() by {
        let p = |r: int| g.consumes(r, m as u32);
        assert(crate::graph::lists(g.consumers@[m]@, g.r_count(), p));
    }
}

proof fn catalysts_stay_none(d: Draft, raw: Seq<crate::raw::RawCatalyst>, k: int, n: int)
    requires
        catalysts_to(d, raw, k) is None,
        k <= n,
    ensures
        catalysts_to(d, raw, n) is None,
    decreases n - k,
{
    if k < n {
        catalysts_stay_none(d, raw, k, n - 1);
    }
}

proof fn recipes_stay_none(d: Draft, cid: CategoryId, raw: RawCategory, k: int, n: int)
    requires
        recipes_to(d, cid, raw, k) is None,
        k <= n,
    ensures
        recipes_to(d, cid, raw, n) is None,
    decreases n - k,
{
    if k < n {
        recipes_stay_none(d, cid, raw, k, n - 1);
    }
}

proof fn draft_stays_none(categories: Seq<RawCategory>, k: int, n: int)
    requires
        draft_to(categories, k) is None,
        k <= n,
    ensures
        draft_to(categories, n) is None,
    decreases n - k,
{
    if k < n {
        draft_stays_none(categories, k, n - 1);
    }
}

fn build_catalysts(g: &mut KnowledgeGraph, raw: &Vec<crate::raw::RawCatalyst>) -> (r: Option<
    Vec<Catalyst>,
>)
    requires
        growing(*old(g)),
    ensures
        match r {
            Some(list) => {
                &&& growing(*final(g))
                &&& forall|k: int|
                    0 <= k < list@.len() ==> (#[trigger] list@[k]).material < final(g).m_count()
                &&& catalysts_to(draft_of(*old(g)), raw@, raw@.len() as int) == Some(
                    (draft_of(*final(g)), catalyst_pairs(list@)),
                )
            },
            None => catalysts_to(draft_of(*old(g)), raw@, raw@.len() as int) is None,
        },
        final(g).recipes == old(g).recipes,
        final(g).recipe_index == old(g).recipe_index,
        final(g).categories == old(g).categories,
        alike_rest(*final(g), *old(g)),
{
    let ghost d = draft_of(*g);
    let mut list: Vec<Catalyst> = Vec::new();
    assert(catalyst_pairs(list@) =~= Seq::empty());
    let mut k: usize = 0;
    while k < raw.len()
        invariant
            k <= raw@.len(),
            growing(*g),
            d == draft_of(*old(g)),
            forall|i: int| 0 <= i < list@.len() ==> (#[trigger] list@[i]).material < g.m_count(),
            catalysts_to(d, raw@, k as int) == Some((draft_of(*g), catalyst_pairs(list@))),
            g.recipes == old(g).recipes,
            g.recipe_index == old(g).recipe_index,
            g.categories == old(g).categories,
            alike_rest(*g, *old(g)),
        decreases raw@.len() - k,
    {
        let c = &raw[k];
        match intern_material(g, c.ty.as_str(), c.id.as_str(), None) {
            Some(m) => {
                let count: u64 = match c.count {
                    Some(n) => n,
                    None => 1,
                };
                let ghost before = catalyst_pairs(list@);
                list.push(Catalyst { material: m, count });
                assert(catalyst_pairs(list@) =~= before.push((m, count)));
            },
            None => {
                proof {
                    catalysts_stay_none(d, raw@, k + 1, raw@.len() as int);
                }
                return None;
            },
        }
        k += 1;
    }
    Some(list)
}

/// The graph after a category was added is still what its parts say it is.
proof fn category_added(a: KnowledgeGraph, b: KnowledgeGraph, c: CategoryInfo)
    requires
        growing(a),
        a.categories@.len() < u32::MAX,
        forall|k: int|
            0 <= k < c.catalysts@.len() ==> (#[trigger] c.catalysts@[k]).material < a.m_count(),
        b.strings == a.strings,
        b.materials == a.materials,
        b.index == a.index,
        b.recipes == a.recipes,
        b.producers == a.producers,
        b.consumers == a.consumers,
        b.categories@ == a.categories@.push(c),
        b.recipe_index@.len() == a.recipe_index@.len() + 1,
        forall|k: int|
            0 <= k < a.categories@.len() ==> #[trigger] b.recipe_index@[k] == a.recipe_index@[k],
        b.recipe_index@[a.categories@.len() as int]@ == Map::<Seq<char>, RecipeId>::empty(),
    ensures
        growing(b),
{
    linked_same(a, b);
    let n = a.categories@.len() as int;
    assert(b.closed()) by {
        assert forall|x: int| 0 <= x < b.r_count() implies crate::graph::slots_ok(
            (#[trigger] b.recipes@[x]).inputs@,
            b.m_count(),
        ) && crate::graph::slots_ok(b.recipes@[x].outputs@, b.m_count()) && b.recipes@[x].category
            < b.categories@.len() by {
            assert(a.recipes@[x].category < a.categories@.len());
        }
        assert forall|x: int, k: int|
            0 <= x < b.categories@.len() && 0 <= k < b.categories@[x].catalysts@.len() implies (
        #[trigger] b.categories@[x].catalysts@[k]).material < b.m_count() by {
            if x < n {
                assert(b.categories@[x] == a.categories@[x]);
                assert(a.categories@[x].catalysts@[k].material < a.m_count());
            }
        }
    }
    assert(b.keyed()) by {
        assert forall|m: int| 0 <= m < b.m_count() implies b.key_ok(
            (#[trigger] b.materials@[m]).key,
        ) by {
            assert(a.key_ok(a.materials@[m].key));
        }
    }
    assert(b.recipes_indexed()) by {
        assert forall|x: int| 0 <= x < b.r_count() implies b.recipe_index@[(
        #[trigger] b.recipes@[x]).category as int]@.contains_key(b.recipes@[x].id@) && x
            <= b.recipe_index@[b.recipes@[x].category as int]@[b.recipes@[x].id@] by {
            assert(a.recipes@[x].category < a.categories@.len());
        }
        assert forall|x: int, id: Seq<char>|
            0 <= x < b.categories@.len() && #[trigger] b.recipe_index@[x]@.contains_key(
                id,
            ) implies b.is_recipe(b.recipe_index@[x]@[id] as int, x as u32, id) by {
            if x < n {
                assert(a.recipe_index@[x]@.contains_key(id));
                assert(a.is_recipe(a.recipe_index@[x]@[id] as int, x as u32, id));
            }
        }
    }
}

/// Adds a category and its recipes; false where the numbers run out.
fn add_category(g: &mut KnowledgeGraph, raw: &RawCategory) -> (r: bool)
    requires
        growing(*old(g)),
    ensures
        r ==> growing(*final(g)) && with_category(draft_of(*old(g)), *raw) == Some(
            draft_of(*final(g)),
        ),
        !r ==> with_category(draft_of(*old(g)), *raw) is None,
        alike_rest(*final(g), *old(g)),
{
    if g.categories.len() >= u32::MAX as usize {
        return false;
    }
    let cid: u32 = g.categories.len() as u32;
    let catalysts = match build_catalysts(g, &raw.catalysts) {
        Some(list) => list,
        None => {
            return false;
        },
    };
    let ghost a = *g;
    let cat = CategoryInfo {
        ty: raw.ty.clone(),
        title: raw.title.clone(),
        recipe_class: copy_option(&raw.recipe_class),
        catalysts,
        recipe_count: raw.recipes.len(),
    };
    let ghost shown = cat;
    g.categories.push(cat);
    g.recipe_index.push(StringHashMap::new());
    let ghost b = *g;
    proof {
        category_added(a, b, shown);
        assert(draft_of(b).categories =~= draft_of(a).categories.push(category_entry(shown)));
        assert(draft_of(b).materials =~= draft_of(a).materials);
        assert(draft_of(b).recipes =~= draft_of(a).recipes);
    }
    let ghost d = draft_of(b);
    let mut k: usize = 0;
    while k < raw.recipes.len()
        invariant
            k <= raw.recipes@.len(),
            growing(*g),
            cid < g.categories@.len(),
            recipes_to(d, cid, *raw, k as int) == Some(draft_of(*g)),
            with_category(draft_of(*old(g)), *raw) == recipes_to(
                d,
                cid,
                *raw,
                raw.recipes@.len() as int,
            ),
            alike_rest(*g, *old(g)),
        decreases raw.recipes@.len() - k,
    {
        if !add_recipe(g, cid, raw.ty.as_str(), k, &raw.recipes[k]) {
            proof {
                recipes_stay_none(d, cid, *raw, k + 1, raw.recipes@.len() as int);
            }
            return false;
        }
        k += 1;
    }
    true
}

/// How many items satisfy `p`.
pub open spec fn count_where<T>(s: Seq<T>, p: spec_fn(T) -> bool) -> nat
    decreases s.len(),
{
    if s.len() == 0 {
        0
    } else {
        count_where(s.drop_last(), p) + if p(s.last()) {
            1nat
        } else {
            0nat
        }
    }
}

/// How many numbers the lists hold, or the greatest number where they hold more.
pub open spec fn links_of(lists: Seq<Vec<RecipeId>>) -> usize
    decreases lists.len(),
{
    if lists.len() == 0 {
        0
    } else {
        crate::list::capped(links_of(lists.drop_last()), lists.last()@.len() as usize)
    }
}

pub open spec fn is_item() -> spec_fn(MaterialInfo) -> bool {
    |i: MaterialInfo| i.key.kind is Item
}

pub open spec fn is_fluid() -> spec_fn(MaterialInfo) -> bool {
    |i: MaterialInfo| i.key.kind is Fluid
}

pub open spec fn is_other() -> spec_fn(MaterialInfo) -> bool {
    |i: MaterialInfo| i.key.kind is Other
}

pub open spec fn is_variant() -> spec_fn(MaterialInfo) -> bool {
    |i: MaterialInfo| i.key.nbt is Some
}

pub open spec fn is_nothing() -> spec_fn(RecipeNode) -> bool {
    |r: RecipeNode| r.empty_spec()
}

pub open spec fn is_set() -> spec_fn(bool) -> bool {
    |b: bool| b
}

pub open spec fn is_bare() -> spec_fn(Vec<RecipeId>) -> bool {
    |v: Vec<RecipeId>| v@.len() == 0
}

/// The counts are those of the graph.
pub open spec fn counted(g: KnowledgeGraph) -> bool {
    &&& g.stats.material_count == g.m_count()
    &&& g.stats.item_count == count_where(g.materials@, is_item())
    &&& g.stats.fluid_count == count_where(g.materials@, is_fluid())
    &&& g.stats.other_count == count_where(g.materials@, is_other())
    &&& g.stats.nbt_variant_count == count_where(g.materials@, is_variant())
    &&& g.stats.recipe_count == g.r_count()
    &&& g.stats.empty_recipe_count == count_where(g.recipes@, is_nothing())
    &&& g.stats.category_count == g.categories@.len()
    &&& g.stats.consume_links == links_of(g.consumers@)
    &&& g.stats.produce_links == links_of(g.producers@)
    &&& g.stats.raw_material_count == count_where(g.producers@, is_bare())
    &&& g.stats.leaf_material_count == count_where(g.consumers@, is_bare())
    &&& g.stats.plannable_recipe_count == count_where(g.plannable@, is_set())
    &&& g.stats.harvestable_material_count == count_where(g.harvestable@, is_set())
}

fn count_set(v: &Vec<bool>) -> (r: usize)
    ensures
        r == count_where(v@, is_set()),
{
    let mut r: usize = 0;
    let mut i: usize = 0;
    assert(v@.take(0) =~= Seq::empty());
    while i < v.len()
        invariant
            i <= v@.len(),
            r <= i,
            r == count_where(v@.take(i as int), is_set()),
        decreases v@.len() - i,
    {
        assert(v@.take(i + 1).drop_last() =~= v@.take(i as int));
        if v[i] {
            r += 1;
        }
        i += 1;
    }
    assert(v@.take(i as int) =~= v@);
    r
}

fn count_bare(v: &Vec<Vec<RecipeId>>) -> (r: (usize, usize))
    ensures
        r.0 == count_where(v@, is_bare()),
        r.1 == links_of(v@),
{
    let mut bare: usize = 0;
    let mut links: usize = 0;
    let mut i: usize = 0;
    assert(v@.take(0) =~= Seq::empty());
    while i < v.len()
        invariant
            i <= v@.len(),
            bare <= i,
            bare == count_where(v@.take(i as int), is_bare()),
            links == links_of(v@.take(i as int)),
        decreases v@.len() - i,
    {
        assert(v@.take(i + 1).drop_last() =~= v@.take(i as int));
        let n: usize = v[i].len();
        if n == 0 {
            bare += 1;
        }
        links = sum_capped(links, n);
        i += 1;
    }
    assert(v@.take(i as int) =~= v@);
    (bare, links)
}

fn count_materials(v: &Vec<MaterialInfo>) -> (r: (usize, usize, usize, usize))
    ensures
        r.0 == count_where(v@, is_item()),
        r.1 == count_where(v@, is_fluid()),
        r.2 == count_where(v@, is_other()),
        r.3 == count_where(v@, is_variant()),
{
    let mut items: usize = 0;
    let mut fluids: usize = 0;
    let mut others: usize = 0;
    let mut variants: usize = 0;
    let mut i: usize = 0;
    assert(v@.take(0) =~= Seq::empty());
    while i < v.len()
        invariant
            i <= v@.len(),
            items <= i,
            fluids <= i,
            others <= i,
            variants <= i,
            items == count_where(v@.take(i as int), is_item()),
            fluids == count_where(v@.take(i as int), is_fluid()),
            others == count_where(v@.take(i as int), is_other()),
            variants == count_where(v@.take(i as int), is_variant()),
        decreases v@.len() - i,
    {
        assert(v@.take(i + 1).drop_last() =~= v@.take(i as int));
        assert(v@.take(i + 1).last() == v@[i as int]);
        match v[i].key.kind {
            MaterialKind::Item => {
                items += 1;
            },
            MaterialKind::Fluid => {
                fluids += 1;
            },
            MaterialKind::Other(_) => {
                others += 1;
            },
        }
        if v[i].key.nbt.is_some() {
            variants += 1;
        }
        i += 1;
    }
    assert(v@.take(i as int) =~= v@);
    (items, fluids, others, variants)
}

fn count_empty(v: &Vec<RecipeNode>) -> (r: usize)
    ensures
        r == count_where(v@, is_nothing()),
{
    let mut r: usize = 0;
    let mut i: usize = 0;
    assert(v@.take(0) =~= Seq::empty());
    while i < v.len()
        invariant
            i <= v@.len(),
            r <= i,
            r == count_where(v@.take(i as int), is_nothing()),
        decreases v@.len() - i,
    {
        assert(v@.take(i + 1).drop_last() =~= v@.take(i as int));
        if v[i].is_empty() {
            r += 1;
        }
        i += 1;
    }
    assert(v@.take(i as int) =~= v@);
    r
}

fn is_plannable_type(ty: &str) -> (r: bool)
    ensures
        r == crate::graph::plannable_type(ty@),
{
    !contains(ty, "diagram") && !contains(ty, "tag_recipes") && !ends_with(ty, "_info")
}

fn mark_plannable(g: &KnowledgeGraph) -> (r: Vec<bool>)
    requires
        g.closed(),
    ensures
        r@.len() == g.r_count(),
        forall|x: int|
            0 <= x < g.r_count() ==> #[trigger] r@[x] == crate::graph::plannable_type(
                g.categories@[g.recipes@[x].category as int].ty@,
            ),
{
    let mut r: Vec<bool> = Vec::new();
    let mut i: usize = 0;
    while i < g.recipes.len()
        invariant
            i <= g.recipes@.len(),
            g.closed(),
            r@.len() == i,
            forall|x: int|
                0 <= x < i ==> #[trigger] r@[x] == crate::graph::plannable_type(
                    g.categories@[g.recipes@[x].category as int].ty@,
                ),
        decreases g.recipes@.len() - i,
    {
        assert(g.recipes@[i as int].category < g.categories@.len());
        let c: usize = g.recipes[i].category as usize;
        r.push(is_plannable_type(g.categories[c].ty.as_str()));
        i += 1;
    }
    r
}

/// One of the first `i` recipes gives the material for nothing.
spec fn given_before(g: KnowledgeGraph, m: MaterialId, i: int) -> bool {
    exists|r: int| 0 <= r < i && #[trigger] g.gives_freely(r, m)
}

fn mark_slots(marks: &mut Vec<bool>, slots: &Vec<Slot>)
    requires
        crate::graph::slots_ok(slots@, old(marks)@.len() as int),
        old(marks)@.len() <= u32::MAX,
    ensures
        final(marks)@.len() == old(marks)@.len(),
        forall|m: int|
            0 <= m < old(marks)@.len() ==> #[trigger] final(marks)@[m] == (old(marks)@[m]
                || crate::graph::mentions(slots@, m as u32)),
{
    let ghost start = marks@;
    let ghost items = slots@;
    let mut s: usize = 0;
    while s < slots.len()
        invariant
            s <= slots@.len(),
            items == slots@,
            start.len() <= u32::MAX,
            crate::graph::slots_ok(items, start.len() as int),
            marks@.len() == start.len(),
            forall|m: int|
                0 <= m < start.len() ==> #[trigger] marks@[m] == (start[m] || met(
                    items,
                    m as u32,
                    s as int,
                    0,
                )),
        decreases slots@.len() - s,
    {
        assert(crate::graph::slot_ok(items[s as int], start.len() as int));
        let alts = &slots[s].alts;
        let mut a: usize = 0;
        while a < alts.len()
            invariant
                a <= alts@.len(),
                s < slots@.len(),
                items == slots@,
                alts@ == items[s as int].alts@,
                start.len() <= u32::MAX,
                crate::graph::slot_ok(items[s as int], start.len() as int),
                marks@.len() == start.len(),
                forall|m: int|
                    0 <= m < start.len() ==> #[trigger] marks@[m] == (start[m] || met(
                        items,
                        m as u32,
                        s as int,
                        a as int,
                    )),
            decreases alts@.len() - a,
        {
            let (m, _): (u32, u64) = alts[a];
            assert(alts@[a as int].0 < start.len());
            let ghost had = marks@;
            marks[m as usize] = true;
            proof {
                assert(crate::graph::mentions_at(items, m, s as int, a as int));
                assert(met(items, m, s as int, a + 1));
                assert forall|x: int| 0 <= x < start.len() implies #[trigger] marks@[x] == (start[x]
                    || met(items, x as u32, s as int, a + 1)) by {
                    if x != m {
                        assert(marks@[x] == had[x]);
                        assert(x as u32 != m);
                        met_next(items, x as u32, s as int, a as int);
                    }
                }
            }
            a += 1;
        }
        proof {
            assert forall|x: int| 0 <= x < start.len() implies #[trigger] marks@[x] == (start[x]
                || met(items, x as u32, s + 1, 0)) by {
                met_slot(items, x as u32, s as int);
            }
        }
        s += 1;
    }
    assert forall|x: int| 0 <= x < start.len() implies #[trigger] marks@[x] == (start[x]
        || crate::graph::mentions(items, x as u32)) by {
        met_all(items, x as u32);
    }
}

proof fn met_next(slots: Seq<Slot>, m: MaterialId, s: int, a: int)
    requires
        !crate::graph::mentions_at(slots, m, s, a),
    ensures
        met(slots, m, s, a + 1) == met(slots, m, s, a),
{
    if met(slots, m, s, a + 1) {
        let (i, j) = choose|i: int, j: int| #[trigger]
            crate::graph::mentions_at(slots, m, i, j) && (i < s || (i == s && j < a + 1));
        assert(met(slots, m, s, a));
    }
    if met(slots, m, s, a) {
        let (i, j) = choose|i: int, j: int| #[trigger]
            crate::graph::mentions_at(slots, m, i, j) && (i < s || (i == s && j < a));
        assert(met(slots, m, s, a + 1));
    }
}

proof fn met_slot(slots: Seq<Slot>, m: MaterialId, s: int)
    requires
        0 <= s < slots.len(),
    ensures
        met(slots, m, s + 1, 0) == met(slots, m, s, slots[s].alts@.len() as int),
{
    let n = slots[s].alts@.len() as int;
    if met(slots, m, s, n) {
        let (i, j) = choose|i: int, j: int| #[trigger]
            crate::graph::mentions_at(slots, m, i, j) && (i < s || (i == s && j < n));
        assert(met(slots, m, s + 1, 0));
    }
    if met(slots, m, s + 1, 0) {
        let (i, j) = choose|i: int, j: int| #[trigger]
            crate::graph::mentions_at(slots, m, i, j) && (i < s + 1 || (i == s + 1 && j < 0));
        assert(met(slots, m, s, n));
    }
}

proof fn met_all(slots: Seq<Slot>, m: MaterialId)
    ensures
        met(slots, m, slots.len() as int, 0) == crate::graph::mentions(slots, m),
{
    let n = slots.len() as int;
    if crate::graph::mentions(slots, m) {
        let (i, j) = choose|i: int, j: int| #[trigger] crate::graph::mentions_at(slots, m, i, j);
        assert(met(slots, m, n, 0));
    }
    if met(slots, m, n, 0) {
        let (i, j) = choose|i: int, j: int| #[trigger]
            crate::graph::mentions_at(slots, m, i, j) && (i < n || (i == n && j < 0));
        assert(crate::graph::mentions(slots, m));
    }
}

fn mark_harvestable(g: &KnowledgeGraph) -> (r: Vec<bool>)
    requires
        g.closed(),
        g.m_count() + g.r_count() < u32::MAX,
        g.plannable@.len() == g.r_count(),
    ensures
        r@.len() == g.m_count(),
        forall|m: int|
            0 <= m < g.m_count() ==> (#[trigger] r@[m] <==> exists|x: int|
                #[trigger] g.gives_freely(x, m as u32)),
{
    let mut r = crate::list::filled(g.materials.len(), false);
    let mut i: usize = 0;
    while i < g.recipes.len()
        invariant
            i <= g.recipes@.len(),
            g.closed(),
            g.m_count() + g.r_count() < u32::MAX,
            g.plannable@.len() == g.r_count(),
            r@.len() == g.m_count(),
            forall|m: int|
                0 <= m < g.m_count() ==> #[trigger] r@[m] == given_before(*g, m as u32, i as int),
        decreases g.recipes@.len() - i,
    {
        let ghost had = r@;
        let node = &g.recipes[i];
        assert(crate::graph::slots_ok(g.recipes@[i as int].outputs@, g.m_count()));
        let free = g.plannable[i] && node.inputs.len() == 0;
        if free {
            mark_slots(&mut r, &node.outputs);
        }
        proof {
            assert forall|m: int| 0 <= m < g.m_count() implies #[trigger] r@[m] == given_before(
                *g,
                m as u32,
                i + 1,
            ) by {
                assert(had[m] == given_before(*g, m as u32, i as int));
                if given_before(*g, m as u32, i + 1) {
                    let x = choose|x: int| 0 <= x < i + 1 && #[trigger] g.gives_freely(x, m as u32);
                    if x < i {
                        assert(given_before(*g, m as u32, i as int));
                    }
                }
                if given_before(*g, m as u32, i as int) {
                    let x = choose|x: int| 0 <= x < i && #[trigger] g.gives_freely(x, m as u32);
                    assert(given_before(*g, m as u32, i + 1));
                }
                if free && crate::graph::mentions(node.outputs@, m as u32) {
                    assert(g.gives_freely(i as int, m as u32));
                }
            }
        }
        i += 1;
    }
    assert forall|m: int| 0 <= m < g.m_count() implies (#[trigger] r@[m] <==> exists|x: int|
        #[trigger] g.gives_freely(x, m as u32)) by {
        if exists|x: int| #[trigger] g.gives_freely(x, m as u32) {
            let x = choose|x: int| #[trigger] g.gives_freely(x, m as u32);
            assert(given_before(*g, m as u32, i as int));
        }
    }
    r
}

/// Works out what depends on the whole graph.
fn finish(g: KnowledgeGraph) -> (r: KnowledgeGraph)
    requires
        growing(g),
        g.chances.wf(),
    ensures
        r.wf(),
        draft_of(r) == draft_of(g),
        counted(r),
        r.names == g.names,
        r.chances == g.chances,
        r.meta == g.meta,
{
    let ghost a = g;
    let mut g = g;
    g.plannable = mark_plannable(&g);
    assert(g.closed());
    let ghost b = g;
    g.harvestable = mark_harvestable(&g);
    let (items, fluids, others, variants): (usize, usize, usize, usize) = count_materials(
        &g.materials,
    );
    let (raws, produce_links): (usize, usize) = count_bare(&g.producers);
    let (leaves, consume_links): (usize, usize) = count_bare(&g.consumers);
    g.stats = GraphStats {
        material_count: g.materials.len(),
        item_count: items,
        fluid_count: fluids,
        other_count: others,
        nbt_variant_count: variants,
        recipe_count: g.recipes.len(),
        empty_recipe_count: count_empty(&g.recipes),
        category_count: g.categories.len(),
        consume_links,
        produce_links,
        raw_material_count: raws,
        leaf_material_count: leaves,
        plannable_recipe_count: count_set(&g.plannable),
        harvestable_material_count: count_set(&g.harvestable),
    };
    proof {
        strings_added(a, g);
        assert(g.flagged()) by {
            assert forall|m: int| 0 <= m < g.m_count() implies (#[trigger] g.harvestable@[m]
                <==> exists|r: int| #[trigger] g.gives_freely(r, m as u32)) by {
                if exists|r: int| #[trigger] b.gives_freely(r, m as u32) {
                    let r = choose|r: int| #[trigger] b.gives_freely(r, m as u32);
                    assert(g.gives_freely(r, m as u32));
                }
                if exists|r: int| #[trigger] g.gives_freely(r, m as u32) {
                    let r = choose|r: int| #[trigger] g.gives_freely(r, m as u32);
                    assert(b.gives_freely(r, m as u32));
                }
            }
        }
        assert(draft_of(g) == draft_of(a));
    }
    g
}

/// Where the data set comes from is what the export says.
pub open spec fn meta_of(root: RawRoot, meta: DatasetMeta) -> bool {
    &&& meta.format@ == root.format@
    &&& meta.version == root.version
    &&& meta.minecraft_version@ == root.minecraft_version@
    &&& meta.exported_at@ == root.exported_at@
    &&& meta.include_hidden == root.include_hidden
    &&& match root.summary {
        Some(s) => {
            &&& meta.summary_category_count == Some(s.category_count)
            &&& meta.summary_recipe_count == Some(s.recipe_count)
        },
        None => meta.summary_category_count is None && meta.summary_recipe_count is None,
    }
}

/// The graph of an export. It fails where materials, recipes, categories or
/// strings are too many for their numbers.
pub fn build_from_root(root: RawRoot) -> (r: Result<KnowledgeGraph, Error>)
    ensures
        match r {
            Ok(g) => {
                &&& g.wf()
                &&& draft_to(root.categories@, root.categories@.len() as int) == Some(draft_of(g))
                &&& counted(g)
                &&& meta_of(root, g.meta)
                &&& g.names@ == Map::<Seq<char>, crate::names::NameEntry>::empty()
                &&& g.chances@ == Map::<(Seq<char>, Seq<char>), Scalar>::empty()
            },
            Err(e) => {
                &&& draft_to(root.categories@, root.categories@.len() as int) is None
                &&& e is Format
                &&& e.detail() == "编号超出 32 位"@
            },
        },
{
    let (category_count, recipe_count): (Option<u64>, Option<u64>) = match &root.summary {
        Some(s) => (Some(s.category_count), Some(s.recipe_count)),
        None => (None, None),
    };
    let mut g = KnowledgeGraph {
        strings: Interner::new(),
        materials: Vec::new(),
        recipes: Vec::new(),
        categories: Vec::new(),
        index: HashMap::new(),
        recipe_index: Vec::new(),
        producers: Vec::new(),
        consumers: Vec::new(),
        plannable: Vec::new(),
        harvestable: Vec::new(),
        names: NameStore::new(),
        chances: ChanceStore::new(),
        meta: DatasetMeta {
            format: root.format.clone(),
            version: root.version,
            minecraft_version: root.minecraft_version.clone(),
            exported_at: root.exported_at.clone(),
            include_hidden: root.include_hidden,
            summary_category_count: category_count,
            summary_recipe_count: recipe_count,
        },
        stats: GraphStats {
            material_count: 0,
            item_count: 0,
            fluid_count: 0,
            other_count: 0,
            nbt_variant_count: 0,
            recipe_count: 0,
            empty_recipe_count: 0,
            category_count: 0,
            consume_links: 0,
            produce_links: 0,
            raw_material_count: 0,
            leaf_material_count: 0,
            plannable_recipe_count: 0,
            harvestable_material_count: 0,
        },
    };
    let ghost start = g;
    proof {
        broadcast use vstd::std_specs::hash::group_hash_axioms;

        assert(growing(g));
        assert(draft_of(g).materials =~= Seq::empty());
        assert(draft_of(g).recipes =~= Seq::empty());
        assert(draft_of(g).categories =~= Seq::empty());
    }
    let mut k: usize = 0;
    while k < root.categories.len()
        invariant
            k <= root.categories@.len(),
            growing(g),
            start.chances.wf(),
            draft_to(root.categories@, k as int) == Some(draft_of(g)),
            alike_rest(g, start),
        decreases root.categories@.len() - k,
    {
        if !add_category(&mut g, &root.categories[k]) {
            proof {
                draft_stays_none(root.categories@, k + 1, root.categories@.len() as int);
            }
            return Err(Error::Format("编号超出 32 位".to_owned()));
        }
        k += 1;
    }
    Ok(finish(g))
}

} // verus!

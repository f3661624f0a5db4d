//! The production graph: materials, recipes and categories, and who produces
//! and who consumes each material.
use std::collections::HashMap;

use vstd::prelude::*;

use crate::chances::ChanceStore;
use crate::intern::Interner;
use crate::model::{
    CategoryId, CategoryInfo, IngredientDto, MaterialDto, MaterialId, MaterialInfo, MaterialKey,
    MaterialKind, RecipeId, RecipeNode, Slot, SlotDto,
};
use crate::names::NameStore;
use crate::order::sort_positions;
use crate::scalar::{Arithmetic, Scalar};
use crate::text::{
    contains, decimal_string, is_text_before, joined, short_name, starts_with, to_lowercase, trim,
};

verus! {

/// Where the data set comes from.
#[derive(Debug)]
pub struct DatasetMeta {
    pub format: String,
    pub version: u32,
    pub minecraft_version: String,
    pub exported_at: String,
    pub include_hidden: bool,
    pub summary_category_count: Option<u64>,
    pub summary_recipe_count: Option<u64>,
}

/// Counts over the graph.
#[derive(Debug)]
pub struct GraphStats {
    pub material_count: usize,
    pub item_count: usize,
    pub fluid_count: usize,
    pub other_count: usize,
    pub nbt_variant_count: usize,
    pub recipe_count: usize,
    pub empty_recipe_count: usize,
    pub category_count: usize,
    /// Pairs of a material and a recipe that consumes it.
    pub consume_links: usize,
    /// Pairs of a recipe and a material that it produces.
    pub produce_links: usize,
    /// Materials that no recipe produces.
    pub raw_material_count: usize,
    /// Materials that no recipe consumes.
    pub leaf_material_count: usize,
    /// Recipes that can be planned with; information pages cannot.
    pub plannable_recipe_count: usize,
    /// Materials that some recipe gives for nothing.
    pub harvestable_material_count: usize,
}

/// The production graph.
///
/// Materials and recipes are dense arrays; `producers` and `consumers` are
/// adjacency lists in ascending order without repetition.
pub struct KnowledgeGraph {
    pub strings: Interner,
    pub materials: Vec<MaterialInfo>,
    pub recipes: Vec<RecipeNode>,
    pub categories: Vec<CategoryInfo>,
    /// Materials by the code of their key.
    pub index: HashMap<u128, MaterialId>,
    /// Recipes of each category by their id.
    pub recipe_index: Vec<vstd::hash_map::StringHashMap<RecipeId>>,
    /// `producers[m]`: the recipes that produce material `m`.
    pub producers: Vec<Vec<RecipeId>>,
    /// `consumers[m]`: the recipes that consume material `m`.
    pub consumers: Vec<Vec<RecipeId>>,
    /// Whether a recipe can be planned with.
    pub plannable: Vec<bool>,
    /// Whether some recipe that can be planned with gives the material for
    /// nothing.
    pub harvestable: Vec<bool>,
    pub names: NameStore,
    pub chances: ChanceStore,
    pub meta: DatasetMeta,
    pub stats: GraphStats,
}

/// Some candidate of some slot is material `m`.
pub open spec fn mentions(slots: Seq<Slot>, m: MaterialId) -> bool {
    exists|s: int, a: int| #[trigger] mentions_at(slots, m, s, a)
}

/// Candidate `a` of slot `s` is material `m`.
pub open spec fn mentions_at(slots: Seq<Slot>, m: MaterialId, s: int, a: int) -> bool {
    0 <= s < slots.len() && 0 <= a < slots[s].alts@.len() && slots[s].alts@[a].0 == m
}

/// A slot has candidates, each a different material below `n` in some quantity.
pub open spec fn slot_ok(slot: Slot, n: int) -> bool {
    &&& slot.alts@.len() > 0
    &&& forall|a: int|
        0 <= a < slot.alts@.len() ==> (#[trigger] slot.alts@[a]).0 < n && slot.alts@[a].1 > 0
    &&& forall|a: int, b: int|
        0 <= a < b < slot.alts@.len() ==> (#[trigger] slot.alts@[a]).0 != (
        #[trigger] slot.alts@[b]).0
}

pub open spec fn slots_ok(slots: Seq<Slot>, n: int) -> bool {
    forall|s: int| 0 <= s < slots.len() ==> slot_ok(#[trigger] slots[s], n)
}

/// `list` is ascending, and holds exactly the numbers below `n` that satisfy `p`.
pub open spec fn lists(list: Seq<u32>, n: int, p: spec_fn(int) -> bool) -> bool {
    &&& forall|a: int, b: int| 0 <= a < b < list.len() ==> #[trigger] list[a] < #[trigger] list[b]
    &&& forall|a: int| 0 <= a < list.len() ==> #[trigger] list[a] < n && p(list[a] as int)
    &&& forall|x: int| 0 <= x < n && #[trigger] p(x) ==> list.contains(x as u32)
}

/// A material as the texts that a client sees.
pub struct MaterialText {
    pub kind: Seq<char>,
    pub id: Seq<char>,
    pub nbt: Option<Seq<char>>,
    pub display: Seq<char>,
    pub display_zh: Seq<char>,
    pub display_en: Seq<char>,
}

/// The text of an optional string.
pub open spec fn text_of(s: Option<String>) -> Option<Seq<char>> {
    match s {
        Some(t) => Some(t@),
        None => None,
    }
}

/// The text of an optional string slice.
pub open spec fn str_text(s: Option<&str>) -> Option<Seq<char>> {
    match s {
        Some(t) => Some(t@),
        None => None,
    }
}

impl View for MaterialDto {
    type V = MaterialText;

    open spec fn view(&self) -> MaterialText {
        MaterialText {
            kind: self.kind@,
            id: self.id@,
            nbt: text_of(self.nbt),
            display: self.display@,
            display_zh: self.display_zh@,
            display_en: self.display_en@,
        }
    }
}

/// An ingredient as the texts and numbers that a client sees.
pub struct IngredientText {
    pub kind: Seq<char>,
    pub id: Seq<char>,
    pub nbt: Option<Seq<char>>,
    pub count: Option<u64>,
    pub amount: Option<u64>,
    pub value: Option<Seq<char>>,
    pub display: Seq<char>,
}

impl View for IngredientDto {
    type V = IngredientText;

    open spec fn view(&self) -> IngredientText {
        IngredientText {
            kind: self.kind@,
            id: self.id@,
            nbt: text_of(self.nbt),
            count: self.count,
            amount: self.amount,
            value: text_of(self.value),
            display: self.display@,
        }
    }
}

/// Whether the recipes of a category can be planned with: diagrams, lists of
/// tag members and information pages cannot.
pub open spec fn plannable_type(ty: Seq<char>) -> bool {
    &&& !crate::text::occurs(ty, "diagram"@)
    &&& !crate::text::occurs(ty, "tag_recipes"@)
    &&& !crate::text::occurs_at(ty, "_info"@, ty.len() - "_info"@.len())
}

impl KnowledgeGraph {
    pub open spec fn m_count(self) -> int {
        self.materials@.len() as int
    }

    pub open spec fn r_count(self) -> int {
        self.recipes@.len() as int
    }

    /// Recipe `r` produces material `m`.
    pub open spec fn produces(self, r: int, m: MaterialId) -> bool {
        mentions(self.recipes@[r].outputs@, m)
    }

    /// Recipe `r` consumes material `m`.
    pub open spec fn consumes(self, r: int, m: MaterialId) -> bool {
        mentions(self.recipes@[r].inputs@, m)
    }

    /// The arrays of the graph have one entry for each material, recipe or
    /// category, and nodes can be numbered with 32 bits.
    pub open spec fn sized(self) -> bool {
        &&& self.producers@.len() == self.m_count()
        &&& self.consumers@.len() == self.m_count()
        &&& self.harvestable@.len() == self.m_count()
        &&& self.plannable@.len() == self.r_count()
        &&& self.recipe_index@.len() == self.categories@.len()
        &&& self.m_count() + self.r_count() < u32::MAX
    }

    /// Slots and categories refer to what is there.
    pub open spec fn closed(self) -> bool {
        &&& forall|r: int|
            0 <= r < self.r_count() ==> slots_ok(
                (#[trigger] self.recipes@[r]).inputs@,
                self.m_count(),
            ) && slots_ok(self.recipes@[r].outputs@, self.m_count()) && self.recipes@[r].category
                < self.categories@.len()
        &&& forall|c: int, k: int|
            0 <= c < self.categories@.len() && 0 <= k < self.categories@[c].catalysts@.len()
                ==> (#[trigger] self.categories@[c].catalysts@[k]).material < self.m_count()
    }

    /// The adjacency lists say who produces and who consumes.
    pub open spec fn linked(self) -> bool {
        &&& forall|m: int|
            0 <= m < self.m_count() ==> lists(
                (#[trigger] self.producers@[m])@,
                self.r_count(),
                |r: int| self.produces(r, m as u32),
            )
        &&& forall|m: int|
            0 <= m < self.m_count() ==> lists(
                (#[trigger] self.consumers@[m])@,
                self.r_count(),
                |r: int| self.consumes(r, m as u32),
            )
    }

    /// The parts of a key are numbers of strings of the graph.
    pub open spec fn key_ok(self, k: MaterialKey) -> bool {
        &&& k.id < self.strings@.len()
        &&& k.kind matches MaterialKind::Other(s) ==> s < self.strings@.len()
        &&& k.nbt matches Some(n) ==> n < self.strings@.len()
    }

    /// Keys refer to strings that are there, and the index finds exactly the
    /// materials.
    pub open spec fn keyed(self) -> bool {
        &&& self.strings.wf()
        &&& forall|m: int|
            0 <= m < self.m_count() ==> self.key_ok((#[trigger] self.materials@[m]).key)
        &&& forall|m: int|
            0 <= m < self.m_count() ==> self.index@.contains_pair(
                crate::model::key_code((#[trigger] self.materials@[m]).key) as u128,
                m as u32,
            )
        &&& forall|c: u128| #[trigger]
            self.index@.contains_key(c) ==> self.index@[c] < self.m_count()
                && crate::model::key_code(self.materials@[self.index@[c] as int].key) == c
    }

    /// Recipe `r` has the given category and id.
    pub open spec fn is_recipe(self, r: int, c: CategoryId, id: Seq<char>) -> bool {
        0 <= r < self.r_count() && self.recipes@[r].category == c && self.recipes@[r].id@ == id
    }

    /// The index of recipes finds the last recipe of a category with an id.
    pub open spec fn recipes_indexed(self) -> bool {
        &&& forall|r: int|
            0 <= r < self.r_count() ==> self.recipe_index@[(
            #[trigger] self.recipes@[r]).category as int]@.contains_key(self.recipes@[r].id@)
                && r <= self.recipe_index@[self.recipes@[r].category as int]@[self.recipes@[r].id@]
        &&& forall|c: int, id: Seq<char>|
            0 <= c < self.categories@.len()
                && #[trigger] self.recipe_index@[c]@.contains_key(id) ==> self.is_recipe(
                self.recipe_index@[c]@[id] as int,
                c as u32,
                id,
            )
    }

    /// Recipes of information pages cannot be planned with, and what a recipe
    /// gives for nothing can be harvested.
    pub open spec fn flagged(self) -> bool {
        &&& forall|r: int|
            0 <= r < self.r_count() ==> #[trigger] self.plannable@[r] == plannable_type(
                self.categories@[self.recipes@[r].category as int].ty@,
            )
        &&& forall|m: int|
            0 <= m < self.m_count() ==> (#[trigger] self.harvestable@[m] <==> exists|r: int|
                #[trigger] self.gives_freely(r, m as u32))
    }

    /// Recipe `r` can be planned with, consumes nothing and produces `m`.
    pub open spec fn gives_freely(self, r: int, m: MaterialId) -> bool {
        &&& 0 <= r < self.r_count()
        &&& self.plannable@[r]
        &&& self.recipes@[r].inputs@.len() == 0
        &&& self.produces(r, m)
    }

    /// The graph is what its parts say it is.
    pub open spec fn wf(self) -> bool {
        &&& self.sized()
        &&& self.closed()
        &&& self.linked()
        &&& self.keyed()
        &&& self.recipes_indexed()
        &&& self.flagged()
        &&& self.chances.wf()
    }

    pub fn material(&self, id: MaterialId) -> (r: &MaterialInfo)
        requires
            id < self.m_count(),
        ensures
            *r == self.materials@[id as int],
    {
        &self.materials[id as usize]
    }

    pub fn recipe(&self, id: RecipeId) -> (r: &RecipeNode)
        requires
            id < self.r_count(),
        ensures
            *r == self.recipes@[id as int],
    {
        &self.recipes[id as usize]
    }

    pub fn category(&self, id: CategoryId) -> (r: &CategoryInfo)
        requires
            id < self.categories@.len(),
        ensures
            *r == self.categories@[id as int],
    {
        &self.categories[id as usize]
    }

    /// The name of a kind.
    pub open spec fn kind_text(self, kind: MaterialKind) -> Seq<char> {
        match kind {
            MaterialKind::Item => "item"@,
            MaterialKind::Fluid => "fluid"@,
            MaterialKind::Other(s) => self.strings@[s as int],
        }
    }

    pub fn kind_str(&self, kind: MaterialKind) -> (r: &str)
        requires
            kind matches MaterialKind::Other(s) ==> s < self.strings@.len(),
        ensures
            r@ == self.kind_text(kind),
    {
        match kind {
            MaterialKind::Item => "item",
            MaterialKind::Fluid => "fluid",
            MaterialKind::Other(s) => self.strings.get(s),
        }
    }

    /// The id of a material, without kind and NBT.
    pub open spec fn id_text(self, m: MaterialId) -> Seq<char> {
        self.strings@[self.materials@[m as int].key.id as int]
    }

    pub fn material_id_str(&self, id: MaterialId) -> (r: &str)
        requires
            self.keyed(),
            id < self.m_count(),
        ensures
            r@ == self.id_text(id),
    {
        self.strings.get(self.material(id).key.id)
    }

    pub fn display(&self, id: MaterialId) -> (r: &str)
        requires
            id < self.m_count(),
        ensures
            r@ == self.materials@[id as int].display@,
    {
        self.material(id).display.as_str()
    }

    /// Whether no recipe produces the material.
    pub fn is_raw(&self, id: MaterialId) -> (r: bool)
        requires
            self.wf(),
            id < self.m_count(),
        ensures
            r == forall|k: int| 0 <= k < self.r_count() ==> !#[trigger] self.produces(k, id),
    {
        let r = self.producers[id as usize].len() == 0;
        proof {
            let list = self.producers@[id as int]@;
            let p = |r: int| self.produces(r, id as int as u32);
            assert(lists(list, self.r_count(), p));
            if !r {
                assert(p(list[0] as int));
                assert(self.produces(list[0] as int, id));
            } else {
                assert forall|k: int| 0 <= k < self.r_count() implies !#[trigger] self.produces(
                    k,
                    id,
                ) by {
                    if self.produces(k, id) {
                        assert(p(k));
                        assert(list.contains(k as u32));
                    }
                }
            }
        }
        r
    }

    /// Whether a recipe can be planned with.
    pub fn is_plannable(&self, id: RecipeId) -> (r: bool)
        requires
            self.sized(),
            id < self.r_count(),
        ensures
            r == self.plannable@[id as int],
    {
        self.plannable[id as usize]
    }

    /// No recipe that can be planned with produces the material.
    pub open spec fn source_spec(self, m: MaterialId) -> bool {
        forall|k: int|
            0 <= k < self.producers@[m as int]@.len() ==> !self.plannable@[(
            #[trigger] self.producers@[m as int]@[k]) as int]
    }

    /// Whether the material has to come from outside: no recipe that can be
    /// planned with produces it.
    pub fn is_source(&self, id: MaterialId) -> (r: bool)
        requires
            self.wf(),
            id < self.m_count(),
        ensures
            r == self.source_spec(id),
            r == forall|k: int|
                0 <= k < self.r_count() && self.plannable@[k] ==> !#[trigger] self.produces(k, id),
    {
        let prods = &self.producers[id as usize];
        let ghost p = |r: int| self.produces(r, id as int as u32);
        assert(lists(prods@, self.r_count(), p));
        let mut i: usize = 0;
        while i < prods.len()
            invariant
                i <= prods@.len(),
                self.sized(),
                id < self.m_count(),
                prods@ == self.producers@[id as int]@,
                p == (|r: int| self.produces(r, id as int as u32)),
                lists(prods@, self.r_count(), p),
                forall|k: int|
                    0 <= k < i ==> !self.plannable@[(
                    #[trigger] self.producers@[id as int]@[k]) as int],
            decreases prods@.len() - i,
        {
            let rid: u32 = prods[i];
            if self.plannable[rid as usize] {
                assert(p(prods@[i as int] as int));
                assert(self.produces(rid as int, id));
                return false;
            }
            i += 1;
        }
        assert forall|k: int| 0 <= k < self.r_count() && self.plannable@[k] implies !#[trigger] self.produces(
            k,
            id,
        ) by {
            if self.produces(k, id) {
                assert(p(k));
                assert(prods@.contains(k as u32));
                let j = choose|j: int| 0 <= j < prods@.len() && prods@[j] == k as u32;
                assert(!self.plannable@[self.producers@[id as int]@[j] as int]);
            }
        }
        true
    }

    /// The recipe takes finished things apart.
    pub open spec fn recycling_spec(self, r: RecipeId) -> bool {
        crate::text::occurs(
            self.categories@[self.recipes@[r as int].category as int].ty@,
            "recycling"@,
        )
    }

    /// Whether a recipe takes finished things apart; such recipes come last
    /// when routes are chosen.
    pub fn is_recycling(&self, id: RecipeId) -> (r: bool)
        requires
            self.closed(),
            id < self.r_count(),
        ensures
            r == self.recycling_spec(id),
    {
        let r = self.recipe(id);
        contains(self.category(r.category).ty.as_str(), "recycling")
    }

    /// The full name of a recipe.
    pub open spec fn full_id(self, r: RecipeId) -> Seq<char> {
        let node = self.recipes@[r as int];
        let cat = self.categories@[node.category as int].ty@;
        if crate::text::occurs_at(node.id@, cat, 0) {
            node.id@
        } else {
            cat + "/"@ + node.id@
        }
    }

    /// The full name of a recipe: its id where that starts with the type of the
    /// category, otherwise the type, a slash and the id.
    pub fn recipe_full_id(&self, id: RecipeId) -> (r: String)
        requires
            self.closed(),
            id < self.r_count(),
        ensures
            r@ == self.full_id(id),
    {
        let r = self.recipe(id);
        let cat = self.category(r.category).ty.as_str();
        if starts_with(r.id.as_str(), cat) {
            r.id.clone()
        } else {
            joined(joined(cat, "/").as_str(), r.id.as_str())
        }
    }

    /// The chance of an output of a recipe.
    pub open spec fn output_chance_spec<A: Arithmetic>(self, ar: A, r: RecipeId, m: MaterialId) -> Scalar {
        self.chances.chance_spec(ar, self.full_id(r), self.id_text(m))
    }

    /// The chance with which a recipe gives a material.
    pub fn output_chance<A: Arithmetic>(&self, ar: &A, rid: RecipeId, m: MaterialId) -> (r: Scalar)
        requires
            self.wf(),
            rid < self.r_count(),
            m < self.m_count(),
        ensures
            r == self.output_chance_spec(*ar, rid, m),
    {
        let full = self.recipe_full_id(rid);
        self.chances.get(ar, full.as_str(), self.material_id_str(m))
    }

    /// Material `m` has the given kind, id and NBT.
    pub open spec fn is_material(
        self,
        m: MaterialId,
        kind: MaterialKind,
        id: Seq<char>,
        nbt: Option<Seq<char>>,
    ) -> bool {
        let key = self.materials@[m as int].key;
        &&& m < self.m_count()
        &&& key.kind == kind
        &&& self.strings@[key.id as int] == id
        &&& match (key.nbt, nbt) {
            (Some(n), Some(t)) => self.strings@[n as int] == t,
            (None, None) => true,
            _ => false,
        }
    }

    /// The material with exactly the given kind, id and NBT.
    pub fn find_material(&self, kind: MaterialKind, id: &str, nbt: Option<&str>) -> (r: Option<
        MaterialId,
    >)
        requires
            self.wf(),
        ensures
            r matches Some(m) ==> self.is_material(
                m,
                kind,
                id@,
                str_text(nbt),
            ),
            r is None ==> forall|m: MaterialId|
                !#[trigger] self.is_material(
                    m,
                    kind,
                    id@,
                    str_text(nbt),
                ),
    {
        broadcast use vstd::std_specs::hash::group_hash_axioms;

        proof {
            self.strings.distinct();
        }
        let id_i: u32 = match self.strings.lookup(id) {
            Some(i) => i,
            None => {
                return None;
            },
        };
        let nbt_i: Option<u32> = match nbt {
            Some(n) => match self.strings.lookup(n) {
                Some(i) => Some(i),
                None => {
                    return None;
                },
            },
            None => None,
        };
        let key = MaterialKey { kind, id: id_i, nbt: nbt_i };
        let code: u128 = key.code();
        match self.index.get(&code) {
            Some(m) => {
                proof {
                    crate::model::key_code_injective(key, self.materials@[*m as int].key);
                }
                Some(*m)
            },
            None => {
                assert forall|m: MaterialId| !#[trigger] self.is_material(
                    m,
                    kind,
                    id@,
                    str_text(nbt),
                ) by {
                    if self.is_material(
                        m,
                        kind,
                        id@,
                        str_text(nbt),
                    ) {
                        assert(self.key_ok(self.materials@[m as int].key));
                        assert(self.materials@[m as int].key == key);
                        assert(self.index@.contains_pair(code, m));
                    }
                }
                None
            },
        }
    }

    /// The recipe of a category with an id; the last one where several have it.
    pub fn find_recipe(&self, category: CategoryId, id: &str) -> (r: Option<RecipeId>)
        requires
            self.wf(),
        ensures
            r matches Some(rid) ==> self.is_recipe(rid as int, category, id@) && forall|k: int| #[trigger]
                self.is_recipe(k, category, id@) ==> k <= rid,
            r is None ==> forall|k: int| !#[trigger] self.is_recipe(k, category, id@),
    {
        if category as usize >= self.recipe_index.len() {
            return None;
        }
        match self.recipe_index[category as usize].get(id) {
            Some(rid) => Some(*rid),
            None => None,
        }
    }

    /// Material `i` is of the wanted kind, and its id or its readable name holds
    /// the text, where `ids` and `names` are those of the materials.
    pub open spec fn is_hit(
        self,
        q: Seq<char>,
        ids: Seq<String>,
        names: Seq<String>,
        kind_filter: Option<MaterialKind>,
        i: int,
    ) -> bool {
        &&& kind_filter matches Some(k) ==> self.materials@[i].key.kind == k
        &&& crate::text::occurs(ids[i]@, q) || crate::text::occurs(names[i]@, q)
    }

    /// The hits among the first `n` materials.
    pub open spec fn hits(
        self,
        q: Seq<char>,
        ids: Seq<String>,
        names: Seq<String>,
        kind_filter: Option<MaterialKind>,
        n: int,
    ) -> Seq<MaterialId>
        decreases n,
    {
        if n <= 0 {
            Seq::empty()
        } else if self.is_hit(q, ids, names, kind_filter, n - 1) {
            self.hits(q, ids, names, kind_filter, n - 1).push((n - 1) as u32)
        } else {
            self.hits(q, ids, names, kind_filter, n - 1)
        }
    }

    /// The short name of a material.
    pub open spec fn short_text(self, m: MaterialId) -> Seq<char> {
        crate::text::after_colon(self.id_text(m))
    }

    /// The order of materials by the lengths of their short names, and by their
    /// ids.
    pub open spec fn by_name(self, hits: Seq<MaterialId>) -> spec_fn(int, int) -> bool {
        |i: int, j: int|
            name_before(
                self.short_text(hits[i]),
                self.id_text(hits[i]),
                self.short_text(hits[j]),
                self.id_text(hits[j]),
            )
    }

    /// What `search_in` returns.
    pub open spec fn found(
        self,
        q: Seq<char>,
        ids: Seq<String>,
        names: Seq<String>,
        kind_filter: Option<MaterialKind>,
        limit: nat,
        r: Seq<MaterialId>,
    ) -> bool {
        let hits = self.hits(q, ids, names, kind_filter, self.m_count());
        if q.len() == 0 {
            r.len() == 0
        } else {
            exists|p: Seq<usize>|
                #[trigger] crate::order::stable_order(self.by_name(hits), hits.len() as int, p)
                    && r == crate::order::listed(hits, p).take(
                    if hits.len() < limit {
                        hits.len() as int
                    } else {
                        limit as int
                    },
                )
        }
    }

    /// The ids and the readable names of the materials, in lower case.
    pub open spec fn lowered(self, ids: Seq<String>, names: Seq<String>) -> bool {
        &&& ids.len() == self.m_count()
        &&& names.len() == self.m_count()
        &&& forall|i: int|
            0 <= i < self.m_count() ==> (#[trigger] ids[i])@ == crate::text::lowercase(
                self.id_text(i as u32),
            )
        &&& forall|i: int|
            0 <= i < self.m_count() ==> (#[trigger] names[i])@ == crate::text::lowercase(
                self.materials@[i].display@,
            )
    }

    /// What `search` returns.
    pub open spec fn searches(
        self,
        query: Seq<char>,
        kind_filter: Option<MaterialKind>,
        limit: nat,
        r: Seq<MaterialId>,
    ) -> bool {
        let q = crate::text::lowercase(crate::text::trimmed(query));
        exists|ids: Seq<String>, names: Seq<String>| #[trigger]
            self.lowered(ids, names) && self.found(q, ids, names, kind_filter, limit, r)
    }

    /// Materials whose id or readable name holds the text, in whatever case:
    /// the short names come first, those of one length in the order of their ids,
    /// and at most `limit` are returned.
    pub fn search(&self, query: &str, kind_filter: Option<MaterialKind>, limit: usize) -> (r: Vec<
        MaterialId,
    >)
        requires
            self.wf(),
        ensures
            self.searches(query@, kind_filter, limit as nat, r@),
            forall|i: int| 0 <= i < r@.len() ==> #[trigger] r@[i] < self.m_count(),
    {
        let q = to_lowercase(trim(query).as_str());
        let mut ids: Vec<String> = Vec::new();
        let mut names: Vec<String> = Vec::new();
        let n: usize = self.materials.len();
        let mut i: usize = 0;
        while i < n
            invariant
                i <= n,
                n == self.m_count(),
                self.wf(),
                ids@.len() == i,
                names@.len() == i,
                forall|k: int|
                    0 <= k < i ==> (#[trigger] ids@[k])@ == crate::text::lowercase(
                        self.id_text(k as u32),
                    ),
                forall|k: int|
                    0 <= k < i ==> (#[trigger] names@[k])@ == crate::text::lowercase(
                        self.materials@[k].display@,
                    ),
            decreases n - i,
        {
            assert(self.key_ok(self.materials@[i as int].key));
            ids.push(to_lowercase(self.strings.get(self.materials[i].key.id)));
            names.push(to_lowercase(self.materials[i].display.as_str()));
            i += 1;
        }
        let r = self.search_in(q.as_str(), &ids, &names, kind_filter, limit);
        assert(self.lowered(ids@, names@));
        r
    }

    /// Materials whose id or readable name holds the text: those with short names
    /// first, names of one length in the order of the ids, and at most `limit`. The
    /// text is looked for in `ids` and `names`, one of each for every material.
    /// An empty text finds nothing.
    pub fn search_in(
        &self,
        q: &str,
        ids: &Vec<String>,
        names: &Vec<String>,
        kind_filter: Option<MaterialKind>,
        limit: usize,
    ) -> (r: Vec<MaterialId>)
        requires
            self.wf(),
            ids@.len() == self.m_count(),
            names@.len() == self.m_count(),
        ensures
            self.found(q@, ids@, names@, kind_filter, limit as nat, r@),
            forall|i: int| 0 <= i < r@.len() ==> #[trigger] r@[i] < self.m_count(),
    {
        if q.is_empty() {
            return Vec::new();
        }
        let mut hits: Vec<MaterialId> = Vec::new();
        let mut shorts: Vec<String> = Vec::new();
        let mut fulls: Vec<&str> = Vec::new();
        let n: usize = self.materials.len();
        let mut i: usize = 0;
        while i < n
            invariant
                i <= n,
                n == self.m_count(),
                self.wf(),
                ids@.len() == n,
                names@.len() == n,
                hits@ == self.hits(q@, ids@, names@, kind_filter, i as int),
                hits@.len() == shorts@.len(),
                forall|k: int| 0 <= k < hits@.len() ==> #[trigger] hits@[k] < i,
                hits@.len() == fulls@.len(),
                forall|k: int|
                    0 <= k < hits@.len() ==> (#[trigger] shorts@[k])@ == self.short_text(hits@[k]),
                forall|k: int|
                    0 <= k < hits@.len() ==> (#[trigger] fulls@[k])@ == self.id_text(hits@[k]),
            decreases n - i,
        {
            let m = &self.materials[i];
            let wanted = match kind_filter {
                Some(k) => m.key.kind == k,
                None => true,
            };
            if wanted {
                assert(self.key_ok(self.materials@[i as int].key));
                if contains(ids[i].as_str(), q) || contains(names[i].as_str(), q) {
                    let full = self.strings.get(m.key.id);
                    shorts.push(short_name(full));
                    fulls.push(full);
                    hits.push(i as u32);
                }
            }
            i += 1;
        }
        let ghost before = self.by_name(hits@);
        proof {
            names_order(self, hits@);
        }
        let less = |i: usize, j: usize| -> (b: bool)
            requires
                i < hits@.len() && j < hits@.len(),
                hits@.len() == shorts@.len(),
                hits@.len() == fulls@.len(),
                forall|k: int|
                    0 <= k < hits@.len() ==> (#[trigger] shorts@[k])@ == self.short_text(hits@[k]),
                forall|k: int|
                    0 <= k < hits@.len() ==> (#[trigger] fulls@[k])@ == self.id_text(hits@[k]),
            ensures
                b == name_before(
                    self.short_text(hits@[i as int]),
                    self.id_text(hits@[i as int]),
                    self.short_text(hits@[j as int]),
                    self.id_text(hits@[j as int]),
                ),
            {
                is_name_before(
                    shorts[i].as_str(),
                    fulls[i],
                    shorts[j].as_str(),
                    fulls[j],
                )
            };
        let p = sort_positions(hits.len(), less, Ghost(before));
        let mut r: Vec<MaterialId> = Vec::new();
        let ghost all = crate::order::listed(hits@, p@);
        let mut i: usize = 0;
        while i < p.len() && i < limit
            invariant
                i <= p@.len(),
                i <= limit,
                crate::order::stable_order(before, hits@.len() as int, p@),
                all == crate::order::listed(hits@, p@),
                r@ == all.take(i as int),
                forall|k: int| 0 <= k < hits@.len() ==> #[trigger] hits@[k] < n,
                forall|k: int| 0 <= k < r@.len() ==> #[trigger] r@[k] < n,
            decreases p@.len() - i,
        {
            r.push(hits[p[i]]);
            assert(r@ =~= all.take(i + 1));
            i += 1;
        }
        r
    }

    /// The texts of a material that a client sees.
    pub open spec fn dto(self, m: MaterialId) -> MaterialText {
        let info = self.materials@[m as int];
        MaterialText {
            kind: self.kind_text(info.key.kind),
            id: self.id_text(m),
            nbt: self.nbt_text(m),
            display: info.display@,
            display_zh: crate::names::zh_name(self.names@, self.id_text(m), info.display@),
            display_en: crate::names::en_name(self.names@, self.id_text(m), info.display@),
        }
    }

    /// The NBT of a material.
    pub open spec fn nbt_text(self, m: MaterialId) -> Option<Seq<char>> {
        match self.materials@[m as int].key.nbt {
            Some(n) => Some(self.strings@[n as int]),
            None => None,
        }
    }

    fn nbt_string(&self, id: MaterialId) -> (r: Option<String>)
        requires
            self.keyed(),
            id < self.m_count(),
        ensures
            text_of(r) == self.nbt_text(id),
    {
        match self.material(id).key.nbt {
            Some(n) => Some(self.strings.get(n).to_owned()),
            None => None,
        }
    }

    pub fn material_dto(&self, id: MaterialId) -> (r: MaterialDto)
        requires
            self.keyed(),
            id < self.m_count(),
        ensures
            r@ == self.dto(id),
    {
        let info = self.material(id);
        assert(self.key_ok(info.key));
        let full = self.strings.get(info.key.id);
        MaterialDto {
            kind: self.kind_str(info.key.kind).to_owned(),
            id: full.to_owned(),
            nbt: self.nbt_string(id),
            display: info.display.clone(),
            display_zh: self.names.zh_or(full, info.display.as_str()).to_owned(),
            display_en: self.names.en_or(full, info.display.as_str()).to_owned(),
        }
    }

    /// The texts of an ingredient that a client sees: a quantity counts items,
    /// is an amount of a fluid, and a text for any other kind.
    pub open spec fn ingredient(self, m: MaterialId, qty: u64) -> IngredientText {
        let info = self.materials@[m as int];
        IngredientText {
            kind: self.kind_text(info.key.kind),
            id: self.id_text(m),
            nbt: self.nbt_text(m),
            count: if info.key.kind is Item { Some(qty) } else { None },
            amount: if info.key.kind is Fluid { Some(qty) } else { None },
            value: if info.key.kind is Other { Some(crate::text::decimal(qty as nat)) } else { None },
            display: info.display@,
        }
    }

    pub fn ingredient_dto(&self, id: MaterialId, qty: u64) -> (r: IngredientDto)
        requires
            self.keyed(),
            id < self.m_count(),
        ensures
            r@ == self.ingredient(id, qty),
    {
        let info = self.material(id);
        assert(self.key_ok(info.key));
        let (count, amount, value): (Option<u64>, Option<u64>, Option<String>) = match info.key.kind {
            MaterialKind::Item => (Some(qty), None, None),
            MaterialKind::Fluid => (None, Some(qty), None),
            MaterialKind::Other(_) => (None, None, Some(decimal_string(qty))),
        };
        IngredientDto {
            kind: self.kind_str(info.key.kind).to_owned(),
            id: self.strings.get(info.key.id).to_owned(),
            nbt: self.nbt_string(id),
            count,
            amount,
            value,
            display: info.display.clone(),
        }
    }

    pub fn slot_dto(&self, slot: &Slot) -> (r: SlotDto)
        requires
            self.keyed(),
            slot_ok(*slot, self.m_count()),
        ensures
            r.name@ == slot.name@,
            r.ingredients@.len() == slot.alts@.len(),
            forall|i: int|
                0 <= i < slot.alts@.len() ==> (#[trigger] r.ingredients@[i])@ == self.ingredient(
                    slot.alts@[i].0,
                    slot.alts@[i].1,
                ),
    {
        let mut ingredients: Vec<IngredientDto> = Vec::new();
        let mut i: usize = 0;
        while i < slot.alts.len()
            invariant
                i <= slot.alts@.len(),
                self.keyed(),
                slot_ok(*slot, self.m_count()),
                ingredients@.len() == i,
                forall|k: int|
                    0 <= k < i ==> (#[trigger] ingredients@[k])@ == self.ingredient(
                        slot.alts@[k].0,
                        slot.alts@[k].1,
                    ),
            decreases slot.alts@.len() - i,
        {
            let (m, q): (u32, u64) = slot.alts[i];
            ingredients.push(self.ingredient_dto(m, q));
            i += 1;
        }
        SlotDto { name: slot.name.clone(), ingredients }
    }
}

/// Shorter names (in bytes) come first; where names have one length, the ids
/// decide.
pub open spec fn name_before(a: Seq<char>, a_id: Seq<char>, b: Seq<char>, b_id: Seq<char>) -> bool {
    let la = vstd::utf8::encode_utf8(a).len() as usize;
    let lb = vstd::utf8::encode_utf8(b).len() as usize;
    la < lb || (la == lb && crate::text::text_before(a_id, b_id))
}

fn is_name_before(a: &str, a_id: &str, b: &str, b_id: &str) -> (r: bool)
    ensures
        r == name_before(a@, a_id@, b@, b_id@),
{
    a.len() < b.len() || (a.len() == b.len() && is_text_before(a_id, b_id))
}

pub(crate) proof fn names_order(g: &KnowledgeGraph, hits: Seq<MaterialId>)
    ensures
        crate::order::orders(g.by_name(hits), hits.len() as int),
{
    let lt = g.by_name(hits);
    let n = hits.len() as int;
    let names = |i: int| g.id_text(hits[i]);
    assert forall|i: int| 0 <= i < n implies !#[trigger] lt(i, i) by {
        crate::text::text_before_orders(names(i), names(i), names(i));
    }
    assert forall|i: int, j: int, k: int|
        0 <= i < n && 0 <= j < n && 0 <= k < n && #[trigger] lt(i, j) && #[trigger] lt(
            j,
            k,
        ) implies lt(i, k) by {
        crate::text::text_before_orders(names(i), names(j), names(k));
    }
    assert forall|i: int, j: int, k: int|
        #![trigger lt(i, k), lt(i, j)]
        #![trigger lt(i, k), lt(j, k)]
        0 <= i < n && 0 <= j < n && 0 <= k < n && lt(i, k) implies lt(i, j) || lt(j, k) by {
        crate::text::text_before_orders(names(i), names(j), names(k));
        crate::text::text_before_orders(names(i), names(k), names(j));
        crate::text::text_before_orders(names(j), names(i), names(k));
        crate::text::text_before_orders(names(j), names(k), names(i));
    }
}

/// NBT is part of what a material is: two materials that agree in kind, id and
/// NBT are one material, and materials with different NBT are different ones.
pub proof fn nbt_is_identity(
    g: KnowledgeGraph,
    kind: MaterialKind,
    id: Seq<char>,
    nbt1: Option<Seq<char>>,
    nbt2: Option<Seq<char>>,
    m1: MaterialId,
    m2: MaterialId,
)
    requires
        g.wf(),
        g.is_material(m1, kind, id, nbt1),
        g.is_material(m2, kind, id, nbt2),
    ensures
        m1 == m2 <==> nbt1 == nbt2,
{
    g.strings.distinct();
    let k1 = g.materials@[m1 as int].key;
    let k2 = g.materials@[m2 as int].key;
    assert(g.key_ok(k1) && g.key_ok(k2));
    if nbt1 == nbt2 {
        assert(k1 == k2);
        assert(g.index@.contains_pair(crate::model::key_code(k1) as u128, m1));
        assert(g.index@.contains_pair(crate::model::key_code(k2) as u128, m2));
    }
}

} // verus!

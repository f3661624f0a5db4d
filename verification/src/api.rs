//! What a client may ask of the planner, and how it is answered.
use vstd::prelude::*;

use crate::analysis::Analysis;
use crate::graph::KnowledgeGraph;
use crate::model::{MaterialDto, MaterialId, MaterialKind, RecipeId, Slot, SlotDto};
use crate::planner::beam::BeamOptions;
use crate::report::kind_from_str;
use crate::scalar::{Arithmetic, Scalar};
use crate::solver::ExactOptions;
use crate::text::{joined, same};
use crate::view::{Around, GraphView};

verus! {

/// The kind that a word asks for; an unknown word asks for none.
pub fn kind_filter(kind: &Option<String>) -> (r: Option<MaterialKind>)
    ensures
        r == crate::report::wanted_kind(crate::graph::text_of(*kind)),
{
    match kind {
        Some(word) => kind_from_str(word.as_str()),
        None => None,
    }
}

/// Material `m` is what a name stands for: where no kind is given, the item of
/// that name, or the fluid where there is no such item.
pub open spec fn stands_for(
    g: KnowledgeGraph,
    name: Seq<char>,
    kind: Option<MaterialKind>,
    nbt: Option<Seq<char>>,
    m: MaterialId,
) -> bool {
    match kind {
        Some(k) => g.is_material(m, k, name, nbt),
        None => {
            ||| g.is_material(m, MaterialKind::Item, name, nbt)
            ||| g.is_material(m, MaterialKind::Fluid, name, nbt) && forall|i: MaterialId|
                !#[trigger] g.is_material(i, MaterialKind::Item, name, nbt)
        },
    }
}

/// The ids of the first `k` materials of a list, with commas between them.
pub open spec fn ids_to(g: KnowledgeGraph, list: Seq<MaterialId>, k: int) -> Seq<char>
    decreases k,
{
    if k <= 0 {
        Seq::empty()
    } else if k == 1 {
        g.id_text(list[0])
    } else {
        ids_to(g, list, k - 1) + ", "@ + g.id_text(list[k - 1])
    }
}

/// What is said of a name that stands for nothing, with materials that may have
/// been meant.
pub open spec fn missing_text(g: KnowledgeGraph, name: Seq<char>, meant: Seq<MaterialId>) -> Seq<char> {
    let head = "找不到材料 \""@ + name + "\""@;
    if meant.len() == 0 {
        head
    } else {
        head + "；你是不是想要："@ + ids_to(g, meant, meant.len() as int)
    }
}

/// The material that a name stands for. Where there is none, the answer lists up
/// to five materials that may have been meant.
pub fn resolve_material(
    g: &KnowledgeGraph,
    name: &str,
    kind: Option<MaterialKind>,
    nbt: Option<&str>,
) -> (r: Result<MaterialId, String>)
    requires
        g.wf(),
    ensures
        r is Ok <==> exists|m: MaterialId| #[trigger]
            stands_for(*g, name@, kind, crate::graph::str_text(nbt), m),
        r matches Ok(m) ==> m < g.m_count() && stands_for(
            *g,
            name@,
            kind,
            crate::graph::str_text(nbt),
            m,
        ),
        r matches Err(text) ==> exists|meant: Seq<MaterialId>| #[trigger]
            g.searches(name@, kind, 5, meant) && text@ == missing_text(*g, name@, meant),
{
    let ghost nbt_text = crate::graph::str_text(nbt);
    let first = match kind {
        Some(k) => k,
        None => MaterialKind::Item,
    };
    match g.find_material(first, name, nbt) {
        Some(m) => {
            assert(stands_for(*g, name@, kind, nbt_text, m));
            return Ok(m);
        },
        None => {},
    }
    if kind.is_none() {
        match g.find_material(MaterialKind::Fluid, name, nbt) {
            Some(m) => {
                assert(stands_for(*g, name@, kind, nbt_text, m));
                return Ok(m);
            },
            None => {},
        }
    }
    assert forall|m: MaterialId| !#[trigger] stands_for(*g, name@, kind, nbt_text, m) by {
        assert(!g.is_material(m, first, name@, nbt_text));
        assert(kind is None ==> !g.is_material(m, MaterialKind::Fluid, name@, nbt_text));
    }
    let meant = g.search(name, kind, 5);
    let mut text = joined(joined("找不到材料 \"", name).as_str(), "\"");
    if meant.len() > 0 {
        text.append("；你是不是想要：");
        let ghost head = text@;
        let mut i: usize = 0;
        assert(head + ids_to(*g, meant@, 0) =~= head);
        while i < meant.len()
            invariant
                i <= meant@.len(),
                g.wf(),
                forall|k: int| 0 <= k < meant@.len() ==> #[trigger] meant@[k] < g.m_count(),
                text@ == head + ids_to(*g, meant@, i as int),
            decreases meant@.len() - i,
        {
            if i > 0 {
                text.append(", ");
            }
            text.append(g.material_id_str(meant[i]));
            i += 1;
            assert(text@ =~= head + ids_to(*g, meant@, i as int));
        }
    }
    Err(text)
}

/// A recipe as it is shown to a client.
#[derive(Debug)]
pub struct RecipeDto {
    pub id: String,
    pub category: String,
    pub category_title: String,
    pub inputs: Vec<SlotDto>,
    pub outputs: Vec<SlotDto>,
}

/// A slot as the texts that a client sees.
pub struct SlotText {
    pub name: Seq<char>,
    pub ingredients: Seq<crate::graph::IngredientText>,
}

impl View for SlotDto {
    type V = SlotText;

    open spec fn view(&self) -> SlotText {
        SlotText {
            name: self.name@,
            ingredients: self.ingredients@.map_values(
                |i: crate::model::IngredientDto| i@,
            ),
        }
    }
}

/// A recipe as the texts that a client sees.
pub struct RecipeText {
    pub id: Seq<char>,
    pub category: Seq<char>,
    pub category_title: Seq<char>,
    pub inputs: Seq<SlotText>,
    pub outputs: Seq<SlotText>,
}

/// Slots, with their texts.
pub open spec fn slot_texts(v: Seq<SlotDto>) -> Seq<SlotText> {
    v.map_values(|s: SlotDto| s@)
}

impl View for RecipeDto {
    type V = RecipeText;

    open spec fn view(&self) -> RecipeText {
        RecipeText {
            id: self.id@,
            category: self.category@,
            category_title: self.category_title@,
            inputs: slot_texts(self.inputs@),
            outputs: slot_texts(self.outputs@),
        }
    }
}

/// The texts of a slot.
pub open spec fn slot_shown(g: KnowledgeGraph, slot: Slot) -> SlotText {
    SlotText {
        name: slot.name@,
        ingredients: slot.alts@.map_values(|a: (MaterialId, u64)| g.ingredient(a.0, a.1)),
    }
}

/// The texts of a recipe.
pub open spec fn recipe_shown(g: KnowledgeGraph, r: RecipeId) -> RecipeText {
    let node = g.recipes@[r as int];
    let cat = g.categories@[node.category as int];
    RecipeText {
        id: g.full_id(r),
        category: cat.ty@,
        category_title: cat.title@,
        inputs: node.inputs@.map_values(|s: Slot| slot_shown(g, s)),
        outputs: node.outputs@.map_values(|s: Slot| slot_shown(g, s)),
    }
}

fn slot_dtos(g: &KnowledgeGraph, slots: &Vec<Slot>) -> (r: Vec<SlotDto>)
    requires
        g.keyed(),
        crate::graph::slots_ok(slots@, g.m_count()),
    ensures
        slot_texts(r@) == slots@.map_values(|s: Slot| slot_shown(*g, s)),
{
    let ghost wanted = slots@.map_values(|s: Slot| slot_shown(*g, s));
    let mut r: Vec<SlotDto> = Vec::new();
    let mut i: usize = 0;
    while i < slots.len()
        invariant
            i <= slots@.len(),
            g.keyed(),
            crate::graph::slots_ok(slots@, g.m_count()),
            wanted == slots@.map_values(|s: Slot| slot_shown(*g, s)),
            slot_texts(r@) == wanted.take(i as int),
        decreases slots@.len() - i,
    {
        assert(crate::graph::slot_ok(slots@[i as int], g.m_count()));
        let dto = g.slot_dto(&slots[i]);
        assert(dto@.ingredients =~= slot_shown(*g, slots@[i as int]).ingredients);
        let ghost before = slot_texts(r@);
        let ghost text = dto@;
        r.push(dto);
        assert(slot_texts(r@) =~= before.push(text));
        assert(wanted.take(i + 1) =~= wanted.take(i as int).push(wanted[i as int]));
        i += 1;
    }
    assert(wanted.take(slots@.len() as int) =~= wanted);
    r
}

/// A recipe as it is shown to a client.
pub fn recipe_dto(g: &KnowledgeGraph, rid: RecipeId) -> (r: RecipeDto)
    requires
        g.wf(),
        rid < g.r_count(),
    ensures
        r@ == recipe_shown(*g, rid),
{
    let node = g.recipe(rid);
    let cat = g.category(node.category);
    RecipeDto {
        id: g.recipe_full_id(rid),
        category: cat.ty.clone(),
        category_title: cat.title.clone(),
        inputs: slot_dtos(g, &node.inputs),
        outputs: slot_dtos(g, &node.outputs),
    }
}

/// Recipes, with their texts.
pub open spec fn recipe_texts(v: Seq<RecipeDto>) -> Seq<RecipeText> {
    v.map_values(|r: RecipeDto| r@)
}

/// The first recipes of a list, at most `limit`, as they are shown to a client.
fn recipe_dtos(g: &KnowledgeGraph, list: &Vec<RecipeId>, limit: usize) -> (r: Vec<RecipeDto>)
    requires
        g.wf(),
        forall|i: int| 0 <= i < list@.len() ==> #[trigger] list@[i] < g.r_count(),
    ensures
        recipe_texts(r@) == crate::planner::beam::first_of(list@, limit as int).map_values(
            |x: RecipeId| recipe_shown(*g, x),
        ),
{
    let ghost wanted = list@.map_values(|x: RecipeId| recipe_shown(*g, x));
    let mut r: Vec<RecipeDto> = Vec::new();
    let mut i: usize = 0;
    while i < list.len() && i < limit
        invariant
            i <= list@.len(),
            i <= limit,
            g.wf(),
            forall|i: int| 0 <= i < list@.len() ==> #[trigger] list@[i] < g.r_count(),
            wanted == list@.map_values(|x: RecipeId| recipe_shown(*g, x)),
            recipe_texts(r@) == wanted.take(i as int),
        decreases list@.len() - i,
    {
        let dto = recipe_dto(g, list[i]);
        let ghost before = recipe_texts(r@);
        let ghost text = dto@;
        r.push(dto);
        assert(recipe_texts(r@) =~= before.push(text));
        assert(wanted.take(i + 1) =~= wanted.take(i as int).push(wanted[i as int]));
        i += 1;
    }
    assert(wanted.take(i as int) =~= crate::planner::beam::first_of(
        list@,
        limit as int,
    ).map_values(|x: RecipeId| recipe_shown(*g, x)));
    r
}

/// A material with the recipes around it.
#[derive(Debug)]
pub struct MaterialDetail {
    pub material: MaterialDto,
    /// The cost of a unit; none where it is out of reach.
    pub unit_cost: Option<Scalar>,
    /// How many recipes lead to the material; none where it is out of reach.
    pub depth: Option<u32>,
    pub cyclic: bool,
    pub best_recipe: Option<String>,
    pub producer_count: usize,
    pub consumer_count: usize,
    pub producers: Vec<RecipeDto>,
    pub consumers: Vec<RecipeDto>,
}

/// A number, unless it is out of reach.
pub open spec fn if_finite<A: Arithmetic>(ar: A, x: Scalar) -> Option<Scalar> {
    if ar.finite_spec(x) {
        Some(x)
    } else {
        None
    }
}

/// A number, unless it is out of reach.
pub fn finite_or_none<A: Arithmetic>(ar: &A, x: Scalar) -> (r: Option<Scalar>)
    ensures
        r == if_finite(*ar, x),
{
    if ar.is_finite(x) {
        Some(x)
    } else {
        None
    }
}

impl MaterialDetail {
    /// The detail is that of a material.
    pub open spec fn details<A: Arithmetic>(
        self,
        ar: A,
        g: KnowledgeGraph,
        an: Analysis,
        m: MaterialId,
        limit: usize,
    ) -> bool {
        let producers = g.producers@[m as int]@;
        let consumers = g.consumers@[m as int]@;
        &&& self.material@ == g.dto(m)
        &&& self.unit_cost == if_finite(ar, an.cost.unit_cost@[m as int])
        &&& self.depth == if an.cost.depth@[m as int] == u32::MAX {
            None
        } else {
            Some(an.cost.depth@[m as int])
        }
        &&& self.cyclic == an.cost.cyclic@[m as int]
        &&& match an.cost.best_recipe@[m as int] {
            Some(r) => crate::graph::text_of(self.best_recipe) == Some(g.full_id(r)),
            None => self.best_recipe is None,
        }
        &&& self.producer_count == producers.len()
        &&& self.consumer_count == consumers.len()
        &&& recipe_texts(self.producers@) == crate::planner::beam::first_of(
            producers,
            limit as int,
        ).map_values(|r: RecipeId| recipe_shown(g, r))
        &&& recipe_texts(self.consumers@) == crate::planner::beam::first_of(
            consumers,
            limit as int,
        ).map_values(|r: RecipeId| recipe_shown(g, r))
    }
}

/// A material with the recipes that produce and consume it, at most `limit` of
/// each.
pub fn material_detail<A: Arithmetic>(
    ar: &A,
    g: &KnowledgeGraph,
    an: &Analysis,
    m: MaterialId,
    limit: usize,
) -> (r: MaterialDetail)
    requires
        an.fits(*ar, *g),
        m < g.m_count(),
    ensures
        r.details(*ar, *g, *an, m, limit),
{
    proof {
        assert(crate::graph::lists(
            g.producers@[m as int]@,
            g.r_count(),
            |r: int| g.produces(r, m as int as u32),
        ));
        assert(crate::graph::lists(
            g.consumers@[m as int]@,
            g.r_count(),
            |r: int| g.consumes(r, m as int as u32),
        ));
    }
    let depth: u32 = an.cost.depth[m as usize];
    let best_recipe = match an.cost.best_recipe[m as usize] {
        Some(r) => Some(g.recipe_full_id(r)),
        None => None,
    };
    MaterialDetail {
        material: g.material_dto(m),
        unit_cost: finite_or_none(ar, an.cost.unit_cost[m as usize]),
        depth: if depth == u32::MAX {
            None
        } else {
            Some(depth)
        },
        cyclic: an.material_cyclic(m),
        best_recipe,
        producer_count: g.producers[m as usize].len(),
        consumer_count: g.consumers[m as usize].len(),
        producers: recipe_dtos(g, &g.producers[m as usize], limit),
        consumers: recipe_dtos(g, &g.consumers[m as usize], limit),
    }
}

/// A material that a search found.
#[derive(Debug)]
pub struct SearchHit {
    pub material: MaterialDto,
    pub producers: usize,
    pub consumers: usize,
    /// The cost of a unit; none where it is out of reach.
    pub unit_cost: Option<Scalar>,
}

impl SearchHit {
    /// The hit is that of a material.
    pub open spec fn hits<A: Arithmetic>(
        self,
        ar: A,
        g: KnowledgeGraph,
        an: Analysis,
        m: MaterialId,
    ) -> bool {
        &&& self.material@ == g.dto(m)
        &&& self.producers == g.producers@[m as int]@.len()
        &&& self.consumers == g.consumers@[m as int]@.len()
        &&& self.unit_cost == if_finite(ar, an.cost.unit_cost@[m as int])
    }
}

/// How many materials a search returns: 40 unless asked otherwise, at most 200.
pub fn search_limit(asked: Option<usize>) -> (r: usize)
    ensures
        r == clamped(asked, 40, 0, 200),
{
    clamp(asked, 40, 0, 200)
}

/// How many recipes of a material are shown: 60 unless asked otherwise, at most
/// 300.
pub fn detail_limit(asked: Option<usize>) -> (r: usize)
    ensures
        r == clamped(asked, 60, 0, 300),
{
    clamp(asked, 60, 0, 300)
}

/// What is asked for, or else a default, kept within bounds.
pub open spec fn clamped(asked: Option<usize>, otherwise: usize, low: usize, high: usize) -> usize {
    let n = match asked {
        Some(n) => n,
        None => otherwise,
    };
    if n < low {
        low
    } else if n > high {
        high
    } else {
        n
    }
}

fn clamp(asked: Option<usize>, otherwise: usize, low: usize, high: usize) -> (r: usize)
    ensures
        r == clamped(asked, otherwise, low, high),
{
    let n: usize = match asked {
        Some(n) => n,
        None => otherwise,
    };
    if n < low {
        low
    } else if n > high {
        high
    } else {
        n
    }
}

/// The materials that a search finds.
pub fn search_hits<A: Arithmetic>(
    ar: &A,
    g: &KnowledgeGraph,
    an: &Analysis,
    query: &str,
    kind: Option<MaterialKind>,
    limit: usize,
) -> (r: Vec<SearchHit>)
    requires
        an.fits(*ar, *g),
    ensures
        exists|found: Seq<MaterialId>| #[trigger]
            g.searches(query@, kind, limit as nat, found) && found.len() == r@.len() && forall|i: int|
                0 <= i < r@.len() ==> (#[trigger] r@[i]).hits(*ar, *g, *an, found[i]),
{
    let found = g.search(query, kind, limit);
    let mut r: Vec<SearchHit> = Vec::new();
    let mut i: usize = 0;
    while i < found.len()
        invariant
            i <= found@.len(),
            an.fits(*ar, *g),
            forall|k: int| 0 <= k < found@.len() ==> #[trigger] found@[k] < g.m_count(),
            r@.len() == i,
            forall|k: int| 0 <= k < r@.len() ==> (#[trigger] r@[k]).hits(*ar, *g, *an, found@[k]),
        decreases found@.len() - i,
    {
        let m: MaterialId = found[i];
        r.push(
            SearchHit {
                material: g.material_dto(m),
                producers: g.producers[m as usize].len(),
                consumers: g.consumers[m as usize].len(),
                unit_cost: finite_or_none(ar, an.cost.unit_cost[m as usize]),
            },
        );
        i += 1;
    }
    r
}

/// What may be asked of a picture of the graph.
#[derive(Debug)]
pub struct GraphParams {
    pub material: String,
    pub kind: Option<String>,
    pub depth: Option<usize>,
    /// `up` (what it is made of), `down` (what it is used for) or `both`.
    pub direction: Option<String>,
    pub max_nodes: Option<usize>,
    /// How many inputs of a recipe are shown.
    pub max_inputs: Option<usize>,
    /// How many outputs of a recipe are shown.
    pub max_outputs: Option<usize>,
    /// Recipes that recycle are not shown; so unless asked otherwise.
    pub exclude_recycling: Option<bool>,
}

impl GraphParams {
    /// The picture that is asked for, with defaults and bounds.
    pub open spec fn around<'a, A: Arithmetic>(self, ar: &'a A, g: &'a KnowledgeGraph) -> Around<'a, A> {
        Around {
            ar,
            g,
            depth: clamped(self.depth, 2, 1, 6),
            node_limit: clamped(self.max_nodes, 300, 10, 1500),
            max_inputs: clamped(self.max_inputs, 6, 1, 50),
            max_outputs: clamped(self.max_outputs, 4, 1, 50),
            exclude_recycling: self.exclude_recycling != Some(false),
        }
    }

    /// The producers are asked for.
    pub open spec fn upward(self) -> bool {
        match self.direction {
            Some(d) => d@ == "up"@ || d@ == "both"@,
            None => true,
        }
    }

    /// The consumers are asked for.
    pub open spec fn downward(self) -> bool {
        match self.direction {
            Some(d) => d@ == "down"@ || d@ == "both"@,
            None => false,
        }
    }
}

/// The surroundings of the material that a client names.
pub fn graph_view<A: Arithmetic>(ar: &A, g: &KnowledgeGraph, p: &GraphParams) -> (r: Result<
    GraphView,
    String,
>)
    requires
        g.wf(),
    ensures
        ({
            let kind = crate::report::wanted_kind(crate::graph::text_of(p.kind));
            &&& r is Ok <==> exists|m: MaterialId| #[trigger]
                stands_for(*g, p.material@, kind, None, m)
            &&& r matches Ok(v) ==> exists|m: MaterialId| #[trigger]
                stands_for(*g, p.material@, kind, None, m) && p.around(ar, g).shows(
                    m,
                    p.upward(),
                    p.downward(),
                    v,
                ) && crate::view::tidy(
                    crate::view::node_texts(v.nodes@),
                    crate::view::edge_texts(v.edges@),
                ) && v.nodes@.len() <= 1550
            &&& r matches Err(text) ==> exists|meant: Seq<MaterialId>| #[trigger]
                g.searches(p.material@, kind, 5, meant) && text@ == missing_text(
                    *g,
                    p.material@,
                    meant,
                )
        }),
{
    let start: MaterialId = match resolve_material(g, p.material.as_str(), kind_filter(&p.kind), None) {
        Ok(m) => m,
        Err(e) => {
            return Err(e);
        },
    };
    let (up, down): (bool, bool) = match &p.direction {
        Some(d) => {
            let both = same(d.as_str(), "both");
            (both || same(d.as_str(), "up"), both || same(d.as_str(), "down"))
        },
        None => (true, false),
    };
    let around = Around {
        ar,
        g,
        depth: clamp(p.depth, 2, 1, 6),
        node_limit: clamp(p.max_nodes, 300, 10, 1500),
        max_inputs: clamp(p.max_inputs, 6, 1, 50),
        max_outputs: clamp(p.max_outputs, 4, 1, 50),
        exclude_recycling: match p.exclude_recycling {
            Some(b) => b,
            None => true,
        },
    };
    assert(around == p.around(ar, g));
    let v = around.draw(start, up, down);
    assert(crate::view::node_texts(v.nodes@).len() == v.nodes@.len());
    Ok(v)
}

/// How a plan is made.
#[derive(Clone, Copy, Debug, PartialEq, Eq, Structural)]
pub enum PlanMode {
    /// By expanding the demand with the best recipes.
    Tree,
    /// By searching around that expansion.
    Beam,
    /// By a linear program.
    Exact,
}

/// What may be asked of a plan.
#[derive(Debug)]
pub struct PlanReq {
    pub material: String,
    pub kind: Option<String>,
    pub nbt: Option<String>,
    pub rate: Scalar,
    pub mode: Option<String>,
    pub beam_width: Option<usize>,
    pub candidates: Option<usize>,
    pub max_iterations: Option<usize>,
    pub include_recycling: Option<bool>,
    pub block_amplification: Option<bool>,
}

/// The mode that a word asks for: a tree where there is no word.
pub open spec fn mode_named(word: Option<Seq<char>>) -> Option<PlanMode> {
    match word {
        None => Some(PlanMode::Tree),
        Some(w) => if w == "tree"@ {
            Some(PlanMode::Tree)
        } else if w == "beam"@ {
            Some(PlanMode::Beam)
        } else if w == "exact"@ {
            Some(PlanMode::Exact)
        } else {
            None
        },
    }
}

impl PlanReq {
    /// The rate is a number above zero.
    pub open spec fn rate_ok<A: Arithmetic>(self, ar: A) -> bool {
        ar.finite_spec(self.rate) && ar.lt_spec(ar.ratio_spec(0, 1), self.rate)
    }

    /// How the plan is made, or why the request is refused: the rate has to be a
    /// number above zero, and the mode one of the three.
    pub fn check<A: Arithmetic>(&self, ar: &A) -> (r: Result<PlanMode, String>)
        ensures
            match r {
                Ok(mode) => self.rate_ok(*ar) && mode_named(crate::graph::text_of(self.mode)) == Some(
                    mode,
                ),
                Err(text) => if !self.rate_ok(*ar) {
                    text@ == "rate 必须是正数"@
                } else {
                    mode_named(crate::graph::text_of(self.mode)) is None && text@
                        == "mode 只支持 tree / beam / exact"@
                },
            },
    {
        if !(ar.is_finite(self.rate) && ar.lt(ar.ratio(0, 1), self.rate)) {
            return Err("rate 必须是正数".to_owned());
        }
        match &self.mode {
            None => Ok(PlanMode::Tree),
            Some(w) => if same(w.as_str(), "tree") {
                Ok(PlanMode::Tree)
            } else if same(w.as_str(), "beam") {
                Ok(PlanMode::Beam)
            } else if same(w.as_str(), "exact") {
                Ok(PlanMode::Exact)
            } else {
                Err("mode 只支持 tree / beam / exact".to_owned())
            },
        }
    }

    /// The options of a beam search: what is asked for, otherwise the standard
    /// ones.
    pub fn beam_options<A: Arithmetic>(&self, ar: &A) -> (r: BeamOptions)
        ensures
            r == (BeamOptions {
                beam_width: clamped(self.beam_width, 8, 0, usize::MAX),
                candidate_limit: clamped(self.candidates, 3, 0, usize::MAX),
                max_iterations: clamped(self.max_iterations, 12, 0, usize::MAX),
                sample_per_state: 24,
                ops_penalty: ar.ratio_spec(1, 1000),
                max_tier: None,
            }),
    {
        let standard = BeamOptions::standard(ar);
        BeamOptions {
            beam_width: clamp(self.beam_width, standard.beam_width, 0, usize::MAX),
            candidate_limit: clamp(self.candidates, standard.candidate_limit, 0, usize::MAX),
            max_iterations: clamp(self.max_iterations, standard.max_iterations, 0, usize::MAX),
            ..standard
        }
    }

    /// The options of a linear program: what is asked for, otherwise the standard
    /// ones.
    pub fn exact_options<A: Arithmetic>(&self, ar: &A) -> (r: ExactOptions)
        ensures
            r == (ExactOptions {
                include_recycling: self.include_recycling == Some(true),
                block_amplification: self.block_amplification == Some(true),
                max_materials: 6000,
                max_recipes: 30000,
                ops_penalty: ar.ratio_spec(1, 1_000_000),
                max_tier: None,
            }),
    {
        ExactOptions {
            include_recycling: match self.include_recycling {
                Some(b) => b,
                None => false,
            },
            block_amplification: match self.block_amplification {
                Some(b) => b,
                None => false,
            },
            ..ExactOptions::standard(ar)
        }
    }
}

} // verus!

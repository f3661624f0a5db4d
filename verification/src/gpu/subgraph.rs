//! The part of the graph in which assignments are judged, and assignments as
//! tables over that part.
//!
//! The part is made of a plan: the recipe of each material of the plan, some
//! other recipes for it, and what they take and give. So every assignment that
//! differs from the plan in one recipe can be judged in it.
//!
//! Quantities count pieces of an item and mB of a fluid.
use std::collections::HashMap;

use vstd::prelude::*;

use crate::analysis::Analysis;
use crate::choices::Choices;
use crate::graph::KnowledgeGraph;
use crate::list::filled;
use crate::model::{MaterialId, MaterialKind, RecipeId, Slot};
use crate::planner::beam::recipe_alternatives;
use crate::scalar::{Arithmetic, Scalar};
use crate::util::cheapest_alt;

verus! {

/// The part of the graph in which assignments are judged. Materials and recipes
/// of the part are numbered by their places.
pub struct SubgraphData {
    pub target: MaterialId,
    pub materials: Vec<MaterialId>,
    pub mat_index: HashMap<MaterialId, usize>,
    pub recipes: Vec<RecipeId>,
    pub rec_index: HashMap<RecipeId, usize>,
    /// Where the uses of each material start and end in the two lists below.
    pub cons_offsets: Vec<usize>,
    /// The recipes that use a material.
    pub cons_recipes: Vec<u32>,
    /// How much of it they use.
    pub cons_qty: Vec<Scalar>,
    /// What a unit of each material weighs.
    pub norm_factor: Vec<Scalar>,
    /// What each recipe gives.
    pub recipe_outputs: Vec<Vec<(u32, Scalar)>>,
    /// The materials that each recipe takes.
    pub recipe_inputs: Vec<Vec<MaterialId>>,
}

/// A recipe of the part, for contracts.
pub struct SubEntry {
    pub rid: RecipeId,
    pub outputs: Seq<(u32, Scalar)>,
    pub inputs: Seq<MaterialId>,
}

/// The part on its way, for contracts.
pub struct Sub {
    pub materials: Seq<MaterialId>,
    pub recipes: Seq<SubEntry>,
}

/// The numbers of recipes of the part.
pub open spec fn rids_of(recipes: Seq<SubEntry>) -> Seq<RecipeId> {
    recipes.map_values(|e: SubEntry| e.rid)
}

/// The part with a material in it.
pub open spec fn with_material(s: Sub, m: MaterialId) -> Sub {
    if crate::list::place(s.materials, m) is Some {
        s
    } else {
        Sub { materials: s.materials.push(m), ..s }
    }
}

/// Makes parts of a graph. `ar` is the arithmetic of the costs, `single` that of
/// the device.
pub struct Cut<'a, A, B> {
    pub ar: &'a A,
    pub single: &'a B,
    pub g: &'a KnowledgeGraph,
    pub an: &'a Analysis,
}

impl<'a, A: Arithmetic, B: Arithmetic> Cut<'a, A, B> {
    pub open spec fn ok(self) -> bool {
        self.an.fits(*self.ar, *self.g)
    }

    /// What fills an input slot of a recipe.
    pub open spec fn taken(self, rid: RecipeId, k: int) -> Option<(MaterialId, u64)> {
        crate::util::cheapest_spec(
            *self.ar,
            *self.g,
            self.an.cost.unit_cost@,
            Some(self.an.cost.cyclic@),
            self.g.recipes@[rid as int].inputs@[k],
        )
    }

    /// What the first `k` slots of a recipe take.
    pub open spec fn inputs_to(self, s: Sub, rid: RecipeId, k: int) -> (Sub, Seq<MaterialId>)
        decreases k,
    {
        if k <= 0 {
            (s, Seq::empty())
        } else {
            let (t, list) = self.inputs_to(s, rid, k - 1);
            match self.taken(rid, k - 1) {
                Some((m, _)) => (with_material(t, m), list.push(m)),
                None => (t, list),
            }
        }
    }

    /// What the first `k` slots of a recipe give.
    pub open spec fn outputs_to(self, s: Sub, rid: RecipeId, k: int) -> (Sub, Seq<(u32, Scalar)>)
        decreases k,
    {
        if k <= 0 {
            (s, Seq::empty())
        } else {
            let (t, list) = self.outputs_to(s, rid, k - 1);
            match self.g.recipes@[rid as int].outputs@[k - 1].primary_spec() {
                Some((m, q)) => {
                    let u = with_material(t, m);
                    (
                        u,
                        list.push(
                            (
                                crate::list::place(u.materials, m)->0 as u32,
                                self.single.ratio_spec(q, 1),
                            ),
                        ),
                    )
                },
                None => (t, list),
            }
        }
    }

    /// The part with a recipe in it; one that takes or gives nothing stays out.
    pub open spec fn with_recipe(self, s: Sub, rid: RecipeId) -> Sub {
        let r = self.g.recipes@[rid as int];
        if crate::list::place(rids_of(s.recipes), rid) is Some || r.inputs@.len() == 0
            || r.outputs@.len() == 0 {
            s
        } else {
            let (t, inputs) = self.inputs_to(s, rid, r.inputs@.len() as int);
            let (u, outputs) = self.outputs_to(t, rid, r.outputs@.len() as int);
            if outputs.len() == 0 {
                u
            } else {
                Sub { recipes: u.recipes.push(SubEntry { rid, outputs, inputs }), ..u }
            }
        }
    }

    /// The part with the first `k` recipes of a list in it.
    pub open spec fn with_recipes(self, s: Sub, list: Seq<RecipeId>, k: int) -> Sub
        decreases k,
    {
        if k <= 0 {
            s
        } else {
            self.with_recipe(self.with_recipes(s, list, k - 1), list[k - 1])
        }
    }

    /// The part with the recipe of a material, and others for it.
    pub open spec fn with_choice(self, s: Sub, entry: (MaterialId, RecipeId), others: usize) -> Sub {
        let list = crate::planner::beam::alternatives(
            *self.ar,
            *self.g,
            *self.an,
            entry.0,
            Some(entry.1),
            others,
            None,
        );
        self.with_recipes(
            self.with_recipe(with_material(s, entry.0), entry.1),
            list,
            list.len() as int,
        )
    }

    /// The part for a target and the first `k` entries of a plan.
    pub open spec fn part_to(
        self,
        target: MaterialId,
        entries: Seq<(MaterialId, RecipeId)>,
        others: usize,
        k: int,
    ) -> Sub
        decreases k,
    {
        if k <= 0 {
            Sub { materials: seq![target], recipes: Seq::empty() }
        } else {
            self.with_choice(
                self.part_to(target, entries, others, k - 1),
                entries[k - 1],
                others,
            )
        }
    }

    /// The uses of the material at place `i` by the first `k` slots of the recipe
    /// at place `r`.
    pub open spec fn slot_uses_to(self, s: Sub, i: int, r: int, k: int) -> Seq<(u32, Scalar)>
        decreases k,
    {
        if k <= 0 {
            Seq::empty()
        } else {
            let rest = self.slot_uses_to(s, i, r, k - 1);
            match self.taken(s.recipes[r].rid, k - 1) {
                Some((m, q)) => match crate::list::place(s.materials, m) {
                    Some(at) if at == i => rest.push((r as u32, self.single.ratio_spec(q, 1))),
                    _ => rest,
                },
                None => rest,
            }
        }
    }

    /// The uses of the material at place `i` by the first `r` recipes.
    pub open spec fn uses_to(self, s: Sub, i: int, r: int) -> Seq<(u32, Scalar)>
        decreases r,
    {
        if r <= 0 {
            Seq::empty()
        } else {
            self.uses_to(s, i, r - 1) + self.slot_uses_to(
                s,
                i,
                r - 1,
                self.g.recipes@[s.recipes[r - 1].rid as int].inputs@.len() as int,
            )
        }
    }

    /// The uses of the first `n` materials, one after the other.
    pub open spec fn all_uses_to(self, s: Sub, n: int) -> Seq<(u32, Scalar)>
        decreases n,
    {
        if n <= 0 {
            Seq::empty()
        } else {
            self.all_uses_to(s, n - 1) + self.uses_to(s, n - 1, s.recipes.len() as int)
        }
    }

    /// What a unit of a material weighs.
    pub open spec fn weight(self, m: MaterialId) -> Scalar {
        if self.g.materials@[m as int].key.kind is Fluid {
            self.single.ratio_spec(1, 1000)
        } else {
            self.single.ratio_spec(1, 1)
        }
    }

    /// The data is that of a part.
    pub open spec fn shows(self, sg: SubgraphData, s: Sub) -> bool {
        let n = s.materials.len() as int;
        &&& sg.materials@ == s.materials
        &&& sub_recipes(sg) == s.recipes
        &&& sg.cons_offsets@.len() == n + 1
        &&& forall|i: int|
            0 <= i <= n ==> #[trigger] sg.cons_offsets@[i] == self.all_uses_to(s, i).len()
        &&& sg.cons_recipes@ == self.all_uses_to(s, n).map_values(|u: (u32, Scalar)| u.0)
        &&& sg.cons_qty@ == self.all_uses_to(s, n).map_values(|u: (u32, Scalar)| u.1)
        &&& sg.norm_factor@ == s.materials.map_values(|m: MaterialId| self.weight(m))
    }
}

/// The recipes of the data, for contracts.
pub open spec fn sub_recipes(sg: SubgraphData) -> Seq<SubEntry> {
    Seq::new(
        sg.recipes@.len(),
        |r: int|
            SubEntry {
                rid: sg.recipes@[r],
                outputs: sg.recipe_outputs@[r]@,
                inputs: sg.recipe_inputs@[r]@,
            },
    )
}

impl SubgraphData {
    /// The indexes say where materials and recipes stand, and what recipes give
    /// and take is there.
    pub open spec fn indexed(self) -> bool {
        &&& self.materials@.len() < u32::MAX
        &&& self.recipes@.len() < u32::MAX
        &&& self.recipe_outputs@.len() == self.recipes@.len()
        &&& self.recipe_inputs@.len() == self.recipes@.len()
        &&& forall|m: MaterialId|
            (#[trigger] self.mat_index@.contains_key(m) <==> crate::list::place(
                self.materials@,
                m,
            ) is Some) && (self.mat_index@.contains_key(m) ==> crate::list::place(
                self.materials@,
                m,
            ) == Some(self.mat_index@[m]))
        &&& forall|r: RecipeId|
            (#[trigger] self.rec_index@.contains_key(r) <==> crate::list::place(
                self.recipes@,
                r,
            ) is Some) && (self.rec_index@.contains_key(r) ==> crate::list::place(
                self.recipes@,
                r,
            ) == Some(self.rec_index@[r]))
        &&& forall|r: int, k: int|
            #![trigger self.recipe_outputs@[r]@[k]]
            0 <= r < self.recipes@.len() && 0 <= k < self.recipe_outputs@[r]@.len()
                ==> self.recipe_outputs@[r]@[k].0 < self.materials@.len()
    }

    /// The lists of uses fit the materials and recipes.
    pub open spec fn wf(self) -> bool {
        &&& self.indexed()
        &&& self.materials@.len() > 0
        &&& self.cons_offsets@.len() == self.materials@.len() + 1
        &&& self.cons_qty@.len() == self.cons_recipes@.len()
        &&& self.norm_factor@.len() == self.materials@.len()
        &&& forall|i: int, j: int|
            0 <= i <= j < self.cons_offsets@.len() ==> #[trigger] self.cons_offsets@[i]
                <= #[trigger] self.cons_offsets@[j]
        &&& self.cons_offsets@[0] == 0
        &&& self.cons_offsets@[self.materials@.len() as int] == self.cons_recipes@.len()
        &&& forall|k: int|
            0 <= k < self.cons_recipes@.len() ==> #[trigger] self.cons_recipes@[k]
                < self.recipes@.len()
    }
}

/// The data on its way, for contracts.
pub open spec fn sub_of(sg: SubgraphData) -> Sub {
    Sub { materials: sg.materials@, recipes: sub_recipes(sg) }
}

proof fn rids_same(sg: SubgraphData)
    ensures
        rids_of(sub_recipes(sg)) == sg.recipes@,
{
    assert(rids_of(sub_recipes(sg)) =~= sg.recipes@);
}

impl<'a, A: Arithmetic, B: Arithmetic> Cut<'a, A, B> {
    /// Materials and recipes are those of the graph, each there once.
    spec fn inv(self, sg: SubgraphData) -> bool {
        &&& sg.indexed()
        &&& sg.materials@.len() > 0
        &&& sg.materials@.no_duplicates()
        &&& sg.recipes@.no_duplicates()
        &&& forall|i: int|
            0 <= i < sg.materials@.len() ==> #[trigger] sg.materials@[i] < self.g.m_count()
        &&& forall|i: int| 0 <= i < sg.recipes@.len() ==> #[trigger] sg.recipes@[i] < self.g.r_count()
    }

    /// What an added material leaves as it was.
    spec fn same_rest(self, a: SubgraphData, b: SubgraphData) -> bool {
        &&& a.target == b.target
        &&& a.recipes == b.recipes
        &&& a.rec_index == b.rec_index
        &&& a.recipe_outputs == b.recipe_outputs
        &&& a.recipe_inputs == b.recipe_inputs
        &&& a.cons_offsets == b.cons_offsets
        &&& a.cons_recipes == b.cons_recipes
        &&& a.cons_qty == b.cons_qty
        &&& a.norm_factor == b.norm_factor
        &&& a.materials@.len() >= b.materials@.len()
    }

    fn add_material(&self, sg: &mut SubgraphData, m: MaterialId) -> (at: usize)
        requires
            self.ok(),
            self.inv(*old(sg)),
            m < self.g.m_count(),
        ensures
            self.inv(*final(sg)),
            sub_of(*final(sg)) == with_material(sub_of(*old(sg)), m),
            crate::list::place(final(sg).materials@, m) == Some(at),
            at < final(sg).materials@.len(),
            self.same_rest(*final(sg), *old(sg)),
    {
        broadcast use vstd::std_specs::hash::group_hash_axioms;

        let ghost start = *sg;
        let at: usize = sg.materials.len();
        proof {
            crate::list::place_below(sg.materials@, m);
            assert(sg.mat_index@.contains_key(m) <==> crate::list::place(sg.materials@, m) is Some);
            if crate::list::place(sg.materials@, m) is None {
                crate::list::place_none(sg.materials@, m);
            }
        }
        if let Some(found) = sg.mat_index.get(&m) {
            let found: usize = *found;
            return found;
        }
        sg.materials.push(m);
        sg.mat_index.insert(m, at);
        proof {
            assert(sg.materials@.drop_last() =~= start.materials@);
            assert forall|x: MaterialId|
                (#[trigger] sg.mat_index@.contains_key(x) <==> crate::list::place(
                    sg.materials@,
                    x,
                ) is Some) && (sg.mat_index@.contains_key(x) ==> crate::list::place(
                    sg.materials@,
                    x,
                ) == Some(sg.mat_index@[x])) by {
                assert(start.mat_index@.contains_key(x) <==> crate::list::place(
                    start.materials@,
                    x,
                ) is Some);
            }
            assert(sg.materials@.no_duplicates());
            crate::list::distinct_below(sg.materials@, self.g.m_count());
            assert(sub_recipes(*sg) =~= sub_recipes(start));
            assert forall|r: int, k: int|
                #![trigger sg.recipe_outputs@[r]@[k]]
                0 <= r < sg.recipes@.len() && 0 <= k < sg.recipe_outputs@[r]@.len() implies sg.recipe_outputs@[r]@[k].0
                < sg.materials@.len() by {
                assert(start.recipe_outputs@[r]@[k].0 < start.materials@.len());
            }
        }
        at
    }

    fn find_taken(&self, rid: RecipeId, k: usize) -> (r: Option<(MaterialId, u64)>)
        requires
            self.ok(),
            rid < self.g.r_count(),
            k < self.g.recipes@[rid as int].inputs@.len(),
        ensures
            r == self.taken(rid, k as int),
            r matches Some((m, _)) ==> m < self.g.m_count(),
    {
        let r = self.g.recipe(rid);
        assert(crate::graph::slots_ok(r.inputs@, self.g.m_count()));
        assert(crate::graph::slot_ok(r.inputs@[k as int], self.g.m_count()));
        cheapest_alt(
            self.ar,
            self.g,
            &self.an.cost.unit_cost,
            Some(&self.an.cost.cyclic),
            &r.inputs[k],
        )
    }

    fn list_inputs(&self, sg: &mut SubgraphData, rid: RecipeId) -> (r: Vec<MaterialId>)
        requires
            self.ok(),
            self.inv(*old(sg)),
            rid < self.g.r_count(),
        ensures
            self.inv(*final(sg)),
            (sub_of(*final(sg)), r@) == self.inputs_to(
                sub_of(*old(sg)),
                rid,
                self.g.recipes@[rid as int].inputs@.len() as int,
            ),
            self.same_rest(*final(sg), *old(sg)),
    {
        let ghost start = sub_of(*sg);
        let n: usize = self.g.recipe(rid).inputs.len();
        let mut r: Vec<MaterialId> = Vec::new();
        let mut k: usize = 0;
        while k < n
            invariant
                k <= n,
                n == self.g.recipes@[rid as int].inputs@.len(),
                self.ok(),
                self.inv(*sg),
                rid < self.g.r_count(),
                (sub_of(*sg), r@) == self.inputs_to(start, rid, k as int),
                self.same_rest(*sg, *old(sg)),
            decreases n - k,
        {
            if let Some((m, _)) = self.find_taken(rid, k) {
                let _ = self.add_material(sg, m);
                r.push(m);
            }
            k += 1;
        }
        r
    }

    fn list_outputs(&self, sg: &mut SubgraphData, rid: RecipeId) -> (r: Vec<(u32, Scalar)>)
        requires
            self.ok(),
            self.inv(*old(sg)),
            rid < self.g.r_count(),
        ensures
            self.inv(*final(sg)),
            (sub_of(*final(sg)), r@) == self.outputs_to(
                sub_of(*old(sg)),
                rid,
                self.g.recipes@[rid as int].outputs@.len() as int,
            ),
            forall|i: int|
                0 <= i < r@.len() ==> (#[trigger] r@[i]).0 < final(sg).materials@.len(),
            self.same_rest(*final(sg), *old(sg)),
    {
        let ghost start = sub_of(*sg);
        let node = self.g.recipe(rid);
        let mut r: Vec<(u32, Scalar)> = Vec::new();
        let mut k: usize = 0;
        while k < node.outputs.len()
            invariant
                k <= node.outputs@.len(),
                *node == self.g.recipes@[rid as int],
                self.ok(),
                self.inv(*sg),
                rid < self.g.r_count(),
                (sub_of(*sg), r@) == self.outputs_to(start, rid, k as int),
                forall|i: int| 0 <= i < r@.len() ==> (#[trigger] r@[i]).0 < sg.materials@.len(),
                self.same_rest(*sg, *old(sg)),
            decreases node.outputs@.len() - k,
        {
            if let Some((m, q)) = node.outputs[k].primary() {
                assert(crate::graph::slots_ok(node.outputs@, self.g.m_count()));
                assert(crate::graph::slot_ok(node.outputs@[k as int], self.g.m_count()));
                let at = self.add_material(sg, m);
                r.push((at as u32, self.single.ratio(q, 1)));
            }
            k += 1;
        }
        r
    }

    fn add_recipe(&self, sg: &mut SubgraphData, rid: RecipeId)
        requires
            self.ok(),
            self.inv(*old(sg)),
            rid < self.g.r_count(),
        ensures
            self.inv(*final(sg)),
            sub_of(*final(sg)) == self.with_recipe(sub_of(*old(sg)), rid),
            final(sg).target == old(sg).target,
    {
        broadcast use vstd::std_specs::hash::group_hash_axioms;

        proof {
            rids_same(*sg);
            assert(sg.rec_index@.contains_key(rid) <==> crate::list::place(
                sg.recipes@,
                rid,
            ) is Some);
        }
        let node = self.g.recipe(rid);
        if sg.rec_index.contains_key(&rid) || node.inputs.len() == 0 || node.outputs.len() == 0 {
            return ;
        }
        proof {
            crate::list::place_none(sg.recipes@, rid);
        }
        let inputs = self.list_inputs(sg, rid);
        let outputs = self.list_outputs(sg, rid);
        if outputs.len() == 0 {
            return ;
        }
        let ghost before = *sg;
        let ghost e = SubEntry { rid, outputs: outputs@, inputs: inputs@ };
        let at: usize = sg.recipes.len();
        sg.rec_index.insert(rid, at);
        sg.recipes.push(rid);
        sg.recipe_outputs.push(outputs);
        sg.recipe_inputs.push(inputs);
        proof {
            assert(sg.recipes@.drop_last() =~= before.recipes@);
            assert(sub_recipes(*sg) =~= sub_recipes(before).push(e));
            assert(sg.recipes@.no_duplicates());
            crate::list::distinct_below(sg.recipes@, self.g.r_count());
            assert forall|x: RecipeId|
                (#[trigger] sg.rec_index@.contains_key(x) <==> crate::list::place(
                    sg.recipes@,
                    x,
                ) is Some) && (sg.rec_index@.contains_key(x) ==> crate::list::place(
                    sg.recipes@,
                    x,
                ) == Some(sg.rec_index@[x])) by {
                assert(before.rec_index@.contains_key(x) <==> crate::list::place(
                    before.recipes@,
                    x,
                ) is Some);
            }
            assert forall|x: MaterialId|
                (#[trigger] sg.mat_index@.contains_key(x) <==> crate::list::place(
                    sg.materials@,
                    x,
                ) is Some) && (sg.mat_index@.contains_key(x) ==> crate::list::place(
                    sg.materials@,
                    x,
                ) == Some(sg.mat_index@[x])) by {
                assert(before.mat_index@.contains_key(x) <==> crate::list::place(
                    before.materials@,
                    x,
                ) is Some);
            }
            assert forall|r: int, k: int|
                #![trigger sg.recipe_outputs@[r]@[k]]
                0 <= r < sg.recipes@.len() && 0 <= k < sg.recipe_outputs@[r]@.len() implies sg.recipe_outputs@[r]@[k].0
                < sg.materials@.len() by {
                if r < before.recipes@.len() {
                    assert(sg.recipe_outputs@[r] == before.recipe_outputs@[r]);
                    assert(before.recipe_outputs@[r]@[k].0 < before.materials@.len());
                }
            }
        }
    }
}

impl<'a, A: Arithmetic, B: Arithmetic> Cut<'a, A, B> {
    /// The uses of each material.
    fn list_uses(&self, sg: &SubgraphData) -> (r: Vec<Vec<(u32, Scalar)>>)
        requires
            self.ok(),
            self.inv(*sg),
        ensures
            r@.len() == sg.materials@.len(),
            forall|i: int|
                0 <= i < r@.len() ==> (#[trigger] r@[i])@ == self.uses_to(
                    sub_of(*sg),
                    i,
                    sg.recipes@.len() as int,
                ),
            forall|i: int, k: int|
                #![trigger r@[i]@[k]]
                0 <= i < r@.len() && 0 <= k < r@[i]@.len() ==> r@[i]@[k].0 < sg.recipes@.len(),
    {
        broadcast use vstd::std_specs::hash::group_hash_axioms;

        let ghost s = sub_of(*sg);
        let n: usize = sg.materials.len();
        let mut lists: Vec<Vec<(u32, Scalar)>> = Vec::new();
        let mut i: usize = 0;
        while i < n
            invariant
                i <= n,
                lists@.len() == i,
                forall|k: int| 0 <= k < i ==> (#[trigger] lists@[k])@.len() == 0,
            decreases n - i,
        {
            lists.push(Vec::new());
            i += 1;
        }
        assert forall|i: int| 0 <= i < n implies (#[trigger] lists@[i])@ == self.uses_to(s, i, 0) by {
            assert(lists@[i]@ =~= Seq::empty());
        }
        let mut r: usize = 0;
        while r < sg.recipes.len()
            invariant
                r <= sg.recipes@.len(),
                n == sg.materials@.len(),
                s == sub_of(*sg),
                self.ok(),
                self.inv(*sg),
                lists@.len() == n,
                forall|i: int|
                    0 <= i < n ==> (#[trigger] lists@[i])@ == self.uses_to(s, i, r as int),
                forall|i: int, k: int|
                    #![trigger lists@[i]@[k]]
                    0 <= i < n && 0 <= k < lists@[i]@.len() ==> lists@[i]@[k].0 < sg.recipes@.len(),
            decreases sg.recipes@.len() - r,
        {
            let rid: u32 = sg.recipes[r];
            assert(s.recipes[r as int].rid == rid);
            let slots: usize = self.g.recipe(rid).inputs.len();
            let ghost had = lists@;
            let mut k: usize = 0;
            assert forall|i: int| 0 <= i < n implies (#[trigger] lists@[i])@ == had[i]@
                + self.slot_uses_to(s, i, r as int, 0) by {
                assert(had[i]@ + Seq::<(u32, Scalar)>::empty() =~= had[i]@);
            }
            while k < slots
                invariant
                    k <= slots,
                    r < sg.recipes@.len(),
                    rid == sg.recipes@[r as int],
                    s.recipes[r as int].rid == rid,
                    slots == self.g.recipes@[rid as int].inputs@.len(),
                    n == sg.materials@.len(),
                    s == sub_of(*sg),
                    self.ok(),
                    self.inv(*sg),
                    lists@.len() == n,
                    had.len() == n,
                    forall|i: int|
                        0 <= i < n ==> (#[trigger] lists@[i])@ == had[i]@ + self.slot_uses_to(
                            s,
                            i,
                            r as int,
                            k as int,
                        ),
                    forall|i: int, j: int|
                        #![trigger lists@[i]@[j]]
                        0 <= i < n && 0 <= j < lists@[i]@.len() ==> lists@[i]@[j].0
                            < sg.recipes@.len(),
                decreases slots - k,
            {
                let ghost now = lists@;
                if let Some((m, q)) = self.find_taken(rid, k) {
                    proof {
                        assert(sg.mat_index@.contains_key(m) <==> crate::list::place(
                            sg.materials@,
                            m,
                        ) is Some);
                        crate::list::place_below(sg.materials@, m);
                    }
                    if let Some(found) = sg.mat_index.get(&m) {
                        let at: usize = *found;
                        let use_of: (u32, Scalar) = (r as u32, self.single.ratio(q, 1));
                        lists[at].push(use_of);
                        proof {
                            assert forall|i: int| 0 <= i < n implies (#[trigger] lists@[i])@
                                == had[i]@ + self.slot_uses_to(s, i, r as int, k + 1) by {
                                assert(now[i]@ == had[i]@ + self.slot_uses_to(
                                    s,
                                    i,
                                    r as int,
                                    k as int,
                                ));
                                if i == at {
                                    assert(lists@[i]@ =~= had[i]@ + self.slot_uses_to(
                                        s,
                                        i,
                                        r as int,
                                        k as int,
                                    ).push(use_of));
                                }
                            }
                            assert forall|i: int, j: int|
                                #![trigger lists@[i]@[j]]
                                0 <= i < n && 0 <= j < lists@[i]@.len() implies lists@[i]@[j].0
                                < sg.recipes@.len() by {
                                if i != at || j < now[i]@.len() {
                                    assert(lists@[i]@[j] == now[i]@[j]);
                                }
                            }
                        }
                    }
                }
                k += 1;
            }
            r += 1;
        }
        lists
    }

    /// Puts the uses of all materials one after the other, and notes what
    /// materials weigh.
    fn put_uses(&self, sg: &mut SubgraphData)
        requires
            self.ok(),
            self.inv(*old(sg)),
        ensures
            self.shows(*final(sg), sub_of(*old(sg))),
            final(sg).wf(),
            final(sg).target == old(sg).target,
    {
        let lists = self.list_uses(sg);
        let ghost s = sub_of(*sg);
        let n: usize = sg.materials.len();
        let ghost count = sg.recipes@.len() as int;
        let mut offsets: Vec<usize> = Vec::new();
        let mut recipes: Vec<u32> = Vec::new();
        let mut quantities: Vec<Scalar> = Vec::new();
        let mut weights: Vec<Scalar> = Vec::new();
        offsets.push(0);
        let mut i: usize = 0;
        assert(recipes@ =~= self.all_uses_to(s, 0).map_values(|u: (u32, Scalar)| u.0));
        assert(quantities@ =~= self.all_uses_to(s, 0).map_values(|u: (u32, Scalar)| u.1));
        while i < n
            invariant
                i <= n,
                n == sg.materials@.len(),
                n == lists@.len(),
                count == sg.recipes@.len(),
                s == sub_of(*sg),
                self.ok(),
                self.inv(*sg),
                forall|i: int|
                    0 <= i < lists@.len() ==> (#[trigger] lists@[i])@ == self.uses_to(s, i, count),
                forall|i: int, k: int|
                    #![trigger lists@[i]@[k]]
                    0 <= i < lists@.len() && 0 <= k < lists@[i]@.len() ==> lists@[i]@[k].0 < count,
                offsets@.len() == i + 1,
                forall|k: int|
                    0 <= k <= i ==> #[trigger] offsets@[k] == self.all_uses_to(s, k).len(),
                forall|a: int, b: int|
                    0 <= a <= b <= i ==> #[trigger] offsets@[a] <= #[trigger] offsets@[b],
                recipes@ == self.all_uses_to(s, i as int).map_values(|u: (u32, Scalar)| u.0),
                quantities@ == self.all_uses_to(s, i as int).map_values(|u: (u32, Scalar)| u.1),
                forall|k: int| 0 <= k < recipes@.len() ==> #[trigger] recipes@[k] < count,
                weights@.len() == i,
                forall|k: int| 0 <= k < i ==> #[trigger] weights@[k] == self.weight(s.materials[k]),
            decreases n - i,
        {
            let list = &lists[i];
            let ghost before = self.all_uses_to(s, i as int);
            let mut k: usize = 0;
            assert(recipes@ =~= (before + list@.take(0)).map_values(|u: (u32, Scalar)| u.0));
            assert(quantities@ =~= (before + list@.take(0)).map_values(|u: (u32, Scalar)| u.1));
            while k < list.len()
                invariant
                    k <= list@.len(),
                    forall|j: int| 0 <= j < list@.len() ==> (#[trigger] list@[j]).0 < count,
                    recipes@ == (before + list@.take(k as int)).map_values(
                        |u: (u32, Scalar)| u.0,
                    ),
                    quantities@ == (before + list@.take(k as int)).map_values(
                        |u: (u32, Scalar)| u.1,
                    ),
                    forall|j: int| 0 <= j < recipes@.len() ==> #[trigger] recipes@[j] < count,
                decreases list@.len() - k,
            {
                let (r, q): (u32, Scalar) = list[k];
                assert(list@[k as int].0 < count);
                recipes.push(r);
                quantities.push(q);
                k += 1;
                assert(recipes@ =~= (before + list@.take(k as int)).map_values(
                    |u: (u32, Scalar)| u.0,
                ));
                assert(quantities@ =~= (before + list@.take(k as int)).map_values(
                    |u: (u32, Scalar)| u.1,
                ));
            }
            assert(list@.take(list@.len() as int) =~= list@);
            offsets.push(recipes.len());
            assert(self.all_uses_to(s, i + 1) == before + list@);
            assert(recipes@.len() == self.all_uses_to(s, i + 1).len());
            assert forall|a: int, b: int| 0 <= a <= b <= i + 1 implies #[trigger] offsets@[a]
                <= #[trigger] offsets@[b] by {
                assert(offsets@[i as int] == before.len());
                if a <= i {
                    assert(offsets@[a] <= offsets@[i as int]);
                }
            }
            weights.push(
                match self.g.material(sg.materials[i]).key.kind {
                    MaterialKind::Fluid => self.single.ratio(1, 1000),
                    _ => self.single.ratio(1, 1),
                },
            );
            i += 1;
        }
        assert(weights@ =~= s.materials.map_values(|m: MaterialId| self.weight(m)));
        sg.cons_offsets = offsets;
        sg.cons_recipes = recipes;
        sg.cons_qty = quantities;
        sg.norm_factor = weights;
        proof {
            assert(sub_recipes(*sg) =~= s.recipes);
            assert(sg.indexed()) by {
                assert forall|x: MaterialId|
                    (#[trigger] sg.mat_index@.contains_key(x) <==> crate::list::place(
                        sg.materials@,
                        x,
                    ) is Some) && (sg.mat_index@.contains_key(x) ==> crate::list::place(
                        sg.materials@,
                        x,
                    ) == Some(sg.mat_index@[x])) by {
                    assert(old(sg).mat_index@.contains_key(x) <==> crate::list::place(
                        old(sg).materials@,
                        x,
                    ) is Some);
                }
            }
        }
    }
}

/// The part of the graph for a plan: the recipes of the plan, and `others` for
/// each material.
pub fn build_subgraph_from_plan<A: Arithmetic, B: Arithmetic>(
    ar: &A,
    single: &B,
    g: &KnowledgeGraph,
    an: &Analysis,
    target: MaterialId,
    choices: &Choices,
    others: usize,
) -> (r: SubgraphData)
    requires
        an.fits(*ar, *g),
        target < g.m_count(),
        choices.fits(*g),
    ensures
        r.wf(),
        r.target == target,
        ({
            let cut = Cut { ar, single, g, an };
            cut.shows(
                r,
                cut.part_to(target, choices.entries@, others, choices.entries@.len() as int),
            )
        }),
{
    broadcast use vstd::std_specs::hash::group_hash_axioms;

    let cut = Cut { ar, single, g, an };
    let mut sg = SubgraphData {
        target,
        materials: Vec::new(),
        mat_index: HashMap::new(),
        recipes: Vec::new(),
        rec_index: HashMap::new(),
        cons_offsets: Vec::new(),
        cons_recipes: Vec::new(),
        cons_qty: Vec::new(),
        norm_factor: Vec::new(),
        recipe_outputs: Vec::new(),
        recipe_inputs: Vec::new(),
    };
    sg.materials.push(target);
    sg.mat_index.insert(target, 0);
    let ghost start = cut.part_to(target, choices.entries@, others, 0);
    proof {
        assert(sg.materials@ =~= seq![target]);
        assert(sg.materials@.drop_last() =~= Seq::empty());
        assert(sub_recipes(sg) =~= Seq::empty());
        assert(sub_of(sg) == start);
        assert forall|x: MaterialId|
            (#[trigger] sg.mat_index@.contains_key(x) <==> crate::list::place(
                sg.materials@,
                x,
            ) is Some) && (sg.mat_index@.contains_key(x) ==> crate::list::place(sg.materials@, x)
                == Some(sg.mat_index@[x])) by {
            reveal_with_fuel(crate::list::place, 2);
        }
        assert(cut.inv(sg));
    }
    let mut k: usize = 0;
    while k < choices.entries.len()
        invariant
            k <= choices.entries@.len(),
            cut == (Cut { ar, single, g, an }),
            cut.ok(),
            choices.fits(*g),
            cut.inv(sg),
            sg.target == target,
            sub_of(sg) == cut.part_to(target, choices.entries@, others, k as int),
        decreases choices.entries@.len() - k,
    {
        let (m, rid): (u32, u32) = choices.entries[k];
        assert(choices.entries@[k as int].0 < g.m_count());
        let _ = cut.add_material(&mut sg, m);
        cut.add_recipe(&mut sg, rid);
        let list = recipe_alternatives(ar, g, an, m, Some(rid), others, None);
        let ghost first = sub_of(sg);
        let mut i: usize = 0;
        while i < list.len()
            invariant
                i <= list@.len(),
                cut == (Cut { ar, single, g, an }),
                cut.ok(),
                cut.inv(sg),
                sg.target == target,
                forall|j: int| 0 <= j < list@.len() ==> #[trigger] list@[j] < g.r_count(),
                sub_of(sg) == cut.with_recipes(first, list@, i as int),
            decreases list@.len() - i,
        {
            cut.add_recipe(&mut sg, list[i]);
            i += 1;
        }
        k += 1;
    }
    cut.put_uses(&mut sg);
    sg
}

/// An assignment as tables over the part.
pub struct CandidateTable {
    /// For each recipe the material that it is chosen for; the greatest number
    /// for none.
    pub owner: Vec<u32>,
    /// For each material how much its recipe gives of it; nothing without a
    /// recipe.
    pub out_qty: Vec<Scalar>,
}

/// Tables on their way, for contracts.
pub struct Table {
    pub owner: Seq<u32>,
    pub out_qty: Seq<Scalar>,
}

/// The first quantity of a material among outputs.
pub open spec fn output_at(outputs: Seq<(u32, Scalar)>, at: usize, k: int) -> Option<Scalar>
    decreases k,
{
    if k <= 0 {
        None
    } else {
        match output_at(outputs, at, k - 1) {
            Some(q) => Some(q),
            None => if outputs[k - 1].0 == at {
                Some(outputs[k - 1].1)
            } else {
                None
            },
        }
    }
}

/// All materials are in the part.
pub open spec fn all_inside(sg: SubgraphData, inputs: Seq<MaterialId>) -> bool {
    forall|i: int|
        0 <= i < inputs.len() ==> crate::list::place(
            sg.materials@,
            #[trigger] inputs[i],
        ) is Some
}

/// The tables after one entry of an assignment; none where that cannot be judged:
/// the material or the recipe is not in the part, the recipe does not give the
/// material, or takes one that is not in the part.
pub open spec fn with_entry<B: Arithmetic>(
    single: B,
    sg: SubgraphData,
    t: Table,
    entry: (MaterialId, RecipeId),
) -> Option<Table> {
    match (
        crate::list::place(sg.materials@, entry.0),
        crate::list::place(sg.recipes@, entry.1),
    ) {
        (Some(mi), Some(ri)) => {
            let outputs = sg.recipe_outputs@[ri as int]@;
            match output_at(outputs, mi, outputs.len() as int) {
                Some(q) => if single.le_spec(q, single.ratio_spec(0, 1)) || !all_inside(
                    sg,
                    sg.recipe_inputs@[ri as int]@,
                ) {
                    None
                } else {
                    Some(
                        Table {
                            owner: t.owner.update(ri as int, mi as u32),
                            out_qty: t.out_qty.update(mi as int, q),
                        },
                    )
                },
                None => None,
            }
        },
        _ => None,
    }
}

/// The tables of the first `k` entries of an assignment.
pub open spec fn table_to<B: Arithmetic>(
    single: B,
    sg: SubgraphData,
    entries: Seq<(MaterialId, RecipeId)>,
    k: int,
) -> Option<Table>
    decreases k,
{
    if k <= 0 {
        Some(
            Table {
                owner: Seq::new(sg.recipes@.len(), |i: int| u32::MAX),
                out_qty: Seq::new(sg.materials@.len(), |i: int| single.ratio_spec(0, 1)),
            },
        )
    } else {
        match table_to(single, sg, entries, k - 1) {
            Some(t) => with_entry(single, sg, t, entries[k - 1]),
            None => None,
        }
    }
}

proof fn table_stays_none<B: Arithmetic>(
    single: B,
    sg: SubgraphData,
    entries: Seq<(MaterialId, RecipeId)>,
    k: int,
    n: int,
)
    requires
        table_to(single, sg, entries, k) is None,
        k <= n,
    ensures
        table_to(single, sg, entries, n) is None,
    decreases n - k,
{
    if k < n {
        table_stays_none(single, sg, entries, k, n - 1);
    }
}

fn find_output(outputs: &Vec<(u32, Scalar)>, at: usize) -> (r: Option<Scalar>)
    ensures
        r == output_at(outputs@, at, outputs@.len() as int),
{
    let mut r: Option<Scalar> = None;
    let mut k: usize = 0;
    while k < outputs.len()
        invariant
            k <= outputs@.len(),
            r == output_at(outputs@, at, k as int),
        decreases outputs@.len() - k,
    {
        if r.is_none() && outputs[k].0 as usize == at {
            r = Some(outputs[k].1);
        }
        k += 1;
    }
    r
}

fn are_inside(sg: &SubgraphData, inputs: &Vec<MaterialId>) -> (r: bool)
    requires
        sg.indexed(),
    ensures
        r == all_inside(*sg, inputs@),
{
    broadcast use vstd::std_specs::hash::group_hash_axioms;

    let mut i: usize = 0;
    while i < inputs.len()
        invariant
            i <= inputs@.len(),
            sg.indexed(),
            forall|k: int|
                0 <= k < i ==> crate::list::place(
                    sg.materials@,
                    #[trigger] inputs@[k],
                ) is Some,
        decreases inputs@.len() - i,
    {
        let m: u32 = inputs[i];
        assert(sg.mat_index@.contains_key(m) <==> crate::list::place(sg.materials@, m) is Some);
        if !sg.mat_index.contains_key(&m) {
            assert(crate::list::place(sg.materials@, inputs@[i as int]) is None);
            return false;
        }
        i += 1;
    }
    true
}

impl CandidateTable {
    /// The tables fit a part: owners are materials of it.
    pub open spec fn fits(self, sg: SubgraphData) -> bool {
        &&& self.owner@.len() == sg.recipes@.len()
        &&& self.out_qty@.len() == sg.materials@.len()
        &&& forall|r: int|
            0 <= r < self.owner@.len() ==> #[trigger] self.owner@[r] == u32::MAX || self.owner@[r]
                < sg.materials@.len()
    }

    /// The tables of an assignment; none where it cannot be judged in the part.
    pub fn from_choices<B: Arithmetic>(single: &B, sg: &SubgraphData, choices: &Choices) -> (r: Option<
        Self,
    >)
        requires
            sg.indexed(),
        ensures
            match r {
                Some(t) => {
                    &&& t.fits(*sg)
                    &&& table_to(
                        *single,
                        *sg,
                        choices.entries@,
                        choices.entries@.len() as int,
                    ) == Some(Table { owner: t.owner@, out_qty: t.out_qty@ })
                },
                None => table_to(
                    *single,
                    *sg,
                    choices.entries@,
                    choices.entries@.len() as int,
                ) is None,
            },
    {
        broadcast use vstd::std_specs::hash::group_hash_axioms;

        let zero = single.ratio(0, 1);
        let mut owner = filled(sg.recipes.len(), u32::MAX);
        let mut out_qty = filled(sg.materials.len(), zero);
        let ghost entries = choices.entries@;
        let mut k: usize = 0;
        while k < choices.entries.len()
            invariant
                k <= choices.entries@.len(),
                entries == choices.entries@,
                zero == single.ratio_spec(0, 1),
                sg.indexed(),
                owner@.len() == sg.recipes@.len(),
                out_qty@.len() == sg.materials@.len(),
                forall|r: int|
                    0 <= r < owner@.len() ==> #[trigger] owner@[r] == u32::MAX || owner@[r]
                        < sg.materials@.len(),
                table_to(*single, *sg, entries, k as int) == Some(
                    Table { owner: owner@, out_qty: out_qty@ },
                ),
            decreases choices.entries@.len() - k,
        {
            let (m, rid): (u32, u32) = choices.entries[k];
            let ghost t = Table { owner: owner@, out_qty: out_qty@ };
            let rows: usize = sg.materials.len();
            let count: usize = sg.recipes.len();
            proof {
                assert(sg.mat_index@.contains_key(m) <==> crate::list::place(
                    sg.materials@,
                    m,
                ) is Some);
                assert(sg.rec_index@.contains_key(rid) <==> crate::list::place(
                    sg.recipes@,
                    rid,
                ) is Some);
                crate::list::place_below(sg.materials@, m);
                crate::list::place_below(sg.recipes@, rid);
            }
            let fits = match (sg.mat_index.get(&m), sg.rec_index.get(&rid)) {
                (Some(mi), Some(ri)) => {
                    let mi: usize = *mi;
                    let ri: usize = *ri;
                    match find_output(&sg.recipe_outputs[ri], mi) {
                        Some(q) => if single.le(q, zero) || !are_inside(
                            sg,
                            &sg.recipe_inputs[ri],
                        ) {
                            false
                        } else {
                            owner[ri] = mi as u32;
                            out_qty[mi] = q;
                            true
                        },
                        None => false,
                    }
                },
                _ => false,
            };
            if !fits {
                proof {
                    assert(with_entry(*single, *sg, t, entries[k as int]) is None);
                    table_stays_none(*single, *sg, entries, k + 1, entries.len() as int);
                }
                return None;
            }
            k += 1;
        }
        Some(CandidateTable { owner, out_qty })
    }
}

/// The quantity of a material in the first of `k` slots whose first candidate it
/// is.
pub open spec fn first_quantity(slots: Seq<Slot>, m: MaterialId, k: int) -> Option<u64>
    decreases k,
{
    if k <= 0 {
        None
    } else {
        match first_quantity(slots, m, k - 1) {
            Some(q) => Some(q),
            None => match slots[k - 1].primary_spec() {
                Some((x, q)) if x == m => Some(q),
                _ => None,
            },
        }
    }
}

/// Part `b` has what part `a` has, at the same places.
spec fn grows(a: Sub, b: Sub) -> bool {
    &&& a.materials.len() <= b.materials.len()
    &&& a.recipes.len() <= b.recipes.len()
    &&& forall|i: int| 0 <= i < a.materials.len() ==> #[trigger] b.materials[i] == a.materials[i]
    &&& forall|i: int| 0 <= i < a.recipes.len() ==> #[trigger] b.recipes[i] == a.recipes[i]
}

/// The recipe is in the part.
spec fn has_recipe(s: Sub, rid: RecipeId) -> bool {
    exists|j: int| 0 <= j < s.recipes.len() && (#[trigger] s.recipes[j]).rid == rid
}

proof fn growing_keeps(a: Sub, b: Sub)
    requires
        grows(a, b),
    ensures
        forall|m: MaterialId| #[trigger] a.materials.contains(m) ==> b.materials.contains(m),
        forall|r: RecipeId| #[trigger] has_recipe(a, r) ==> has_recipe(b, r),
{
    assert forall|m: MaterialId| #[trigger] a.materials.contains(m) implies b.materials.contains(
        m,
    ) by {
        let i = choose|i: int| 0 <= i < a.materials.len() && a.materials[i] == m;
        assert(b.materials[i] == m);
    }
    assert forall|r: RecipeId| #[trigger] has_recipe(a, r) implies has_recipe(b, r) by {
        let j = choose|j: int| 0 <= j < a.recipes.len() && (#[trigger] a.recipes[j]).rid == r;
        assert(b.recipes[j].rid == r);
    }
}

impl<'a, A: Arithmetic, B: Arithmetic> Cut<'a, A, B> {
    /// What a recipe of the part takes and gives is in the part.
    spec fn entry_inside(self, s: Sub, e: SubEntry) -> bool {
        let slots = self.g.recipes@[e.rid as int].outputs@;
        &&& e.rid < self.g.r_count()
        &&& forall|i: int|
            0 <= i < e.inputs.len() ==> s.materials.contains(#[trigger] e.inputs[i])
        &&& e.outputs.len() == slots.len()
        &&& forall|k: int|
            0 <= k < slots.len() ==> self.output_inside(s, slots[k], #[trigger] e.outputs[k])
    }

    /// An output is that of its slot.
    spec fn output_inside(self, s: Sub, slot: Slot, out: (u32, Scalar)) -> bool {
        &&& out.0 < s.materials.len()
        &&& slot.primary_spec() == Some((s.materials[out.0 as int], slot.alts@[0].1))
        &&& out.1 == self.single.ratio_spec(slot.alts@[0].1, 1)
    }

    /// Materials are there once, and with each recipe all that it needs.
    spec fn sane(self, s: Sub) -> bool {
        &&& s.materials.no_duplicates()
        &&& forall|i: int| 0 <= i < s.materials.len() ==> #[trigger] s.materials[i] < self.g.m_count()
        &&& forall|j: int| 0 <= j < s.recipes.len() ==> self.entry_inside(s, #[trigger] s.recipes[j])
    }

    proof fn entry_stays_inside(self, a: Sub, b: Sub, e: SubEntry)
        requires
            grows(a, b),
            self.entry_inside(a, e),
        ensures
            self.entry_inside(b, e),
    {
        growing_keeps(a, b);
        let slots = self.g.recipes@[e.rid as int].outputs@;
        assert forall|k: int| 0 <= k < slots.len() implies self.output_inside(
            b,
            slots[k],
            #[trigger] e.outputs[k],
        ) by {
            assert(self.output_inside(a, slots[k], e.outputs[k]));
        }
    }

    proof fn material_sane(self, s: Sub, m: MaterialId)
        requires
            self.ok(),
            self.sane(s),
            m < self.g.m_count(),
        ensures
            self.sane(with_material(s, m)),
            grows(s, with_material(s, m)),
            with_material(s, m).materials.contains(m),
            with_material(s, m).recipes == s.recipes,
            crate::list::place(with_material(s, m).materials, m) matches Some(at) && at
                < with_material(s, m).materials.len() && with_material(s, m).materials[at as int] == m
                && at <= u32::MAX,
    {
        let t = with_material(s, m);
        crate::list::distinct_below(s.materials, self.g.m_count());
        crate::list::place_below(s.materials, m);
        if crate::list::place(s.materials, m) is None {
            crate::list::place_none(s.materials, m);
            assert(t.materials.last() == m);
            assert forall|j: int| 0 <= j < t.recipes.len() implies self.entry_inside(
                t,
                #[trigger] t.recipes[j],
            ) by {
                self.entry_stays_inside(s, t, s.recipes[j]);
            }
        }
        crate::list::distinct_below(t.materials, self.g.m_count());
        crate::list::place_below(t.materials, m);
    }

    proof fn inputs_sane(self, s: Sub, rid: RecipeId, k: int)
        requires
            self.ok(),
            self.sane(s),
            rid < self.g.r_count(),
            0 <= k <= self.g.recipes@[rid as int].inputs@.len(),
        ensures
            ({
                let (t, list) = self.inputs_to(s, rid, k);
                &&& self.sane(t)
                &&& grows(s, t)
                &&& t.recipes == s.recipes
                &&& forall|i: int| 0 <= i < list.len() ==> t.materials.contains(#[trigger] list[i])
            }),
        decreases k,
    {
        if k > 0 {
            self.inputs_sane(s, rid, k - 1);
            let (t, list) = self.inputs_to(s, rid, k - 1);
            let slot = self.g.recipes@[rid as int].inputs@[k - 1];
            assert(crate::graph::slot_ok(slot, self.g.m_count()));
            crate::util::cheapest_is_candidate(
                *self.ar,
                *self.g,
                self.an.cost.unit_cost@,
                Some(self.an.cost.cyclic@),
                slot.alts@,
                slot.alts@.len() as int,
            );
            if let Some((m, q)) = self.taken(rid, k - 1) {
                assert(slot.alts@.contains((m, q)));
                self.material_sane(t, m);
                growing_keeps(t, with_material(t, m));
            }
        }
    }

    proof fn outputs_sane(self, s: Sub, rid: RecipeId, k: int)
        requires
            self.ok(),
            self.sane(s),
            rid < self.g.r_count(),
            0 <= k <= self.g.recipes@[rid as int].outputs@.len(),
        ensures
            ({
                let (t, list) = self.outputs_to(s, rid, k);
                let slots = self.g.recipes@[rid as int].outputs@;
                &&& self.sane(t)
                &&& grows(s, t)
                &&& t.recipes == s.recipes
                &&& list.len() == k
                &&& forall|i: int| 0 <= i < k ==> self.output_inside(t, slots[i], #[trigger] list[i])
            }),
        decreases k,
    {
        if k > 0 {
            self.outputs_sane(s, rid, k - 1);
            let (t, list) = self.outputs_to(s, rid, k - 1);
            let slots = self.g.recipes@[rid as int].outputs@;
            let slot = slots[k - 1];
            assert(crate::graph::slot_ok(slot, self.g.m_count()));
            let (m, q) = slot.alts@[0];
            self.material_sane(t, m);
            let (u, more) = self.outputs_to(s, rid, k);
            assert forall|i: int| 0 <= i < k implies self.output_inside(
                u,
                slots[i],
                #[trigger] more[i],
            ) by {
                if i < k - 1 {
                    assert(more[i] == list[i]);
                    assert(self.output_inside(t, slots[i], list[i]));
                }
            }
        }
    }

    proof fn recipe_sane(self, s: Sub, rid: RecipeId)
        requires
            self.ok(),
            self.sane(s),
            rid < self.g.r_count(),
        ensures
            self.sane(self.with_recipe(s, rid)),
            grows(s, self.with_recipe(s, rid)),
            self.g.recipes@[rid as int].inputs@.len() > 0
                && self.g.recipes@[rid as int].outputs@.len() > 0 ==> has_recipe(
                self.with_recipe(s, rid),
                rid,
            ),
    {
        let r = self.g.recipes@[rid as int];
        let rids = rids_of(s.recipes);
        if crate::list::place(rids, rid) is Some {
            placed(rids, rid);
            let j = choose|j: int| 0 <= j < rids.len() && rids[j] == rid;
            assert(s.recipes[j].rid == rid);
        } else if r.inputs@.len() > 0 && r.outputs@.len() > 0 {
            self.inputs_sane(s, rid, r.inputs@.len() as int);
            let (t, inputs) = self.inputs_to(s, rid, r.inputs@.len() as int);
            self.outputs_sane(t, rid, r.outputs@.len() as int);
            let (u, outputs) = self.outputs_to(t, rid, r.outputs@.len() as int);
            growing_keeps(t, u);
            let e = SubEntry { rid, outputs, inputs };
            let v = self.with_recipe(s, rid);
            assert(v.recipes == u.recipes.push(e));
            assert(v.recipes.last().rid == rid);
            assert(self.entry_inside(u, e));
            assert forall|j: int| 0 <= j < v.recipes.len() implies self.entry_inside(
                v,
                #[trigger] v.recipes[j],
            ) by {
                if j < u.recipes.len() {
                    self.entry_stays_inside(u, v, u.recipes[j]);
                } else {
                    self.entry_stays_inside(u, v, e);
                }
            }
        }
    }

    proof fn recipes_sane(self, s: Sub, list: Seq<RecipeId>, k: int)
        requires
            self.ok(),
            self.sane(s),
            0 <= k <= list.len(),
            forall|i: int| 0 <= i < list.len() ==> #[trigger] list[i] < self.g.r_count(),
        ensures
            self.sane(self.with_recipes(s, list, k)),
            grows(s, self.with_recipes(s, list, k)),
            forall|i: int|
                0 <= i < k && self.g.recipes@[(#[trigger] list[i]) as int].inputs@.len() > 0
                    && self.g.recipes@[list[i] as int].outputs@.len() > 0 ==> has_recipe(
                    self.with_recipes(s, list, k),
                    list[i],
                ),
        decreases k,
    {
        if k > 0 {
            self.recipes_sane(s, list, k - 1);
            let t = self.with_recipes(s, list, k - 1);
            self.recipe_sane(t, list[k - 1]);
            growing_keeps(t, self.with_recipes(s, list, k));
        }
    }

    /// The recipe is that of the plan for its material, or one of the others for
    /// it.
    pub open spec fn within_reach(
        self,
        entries: Seq<(MaterialId, RecipeId)>,
        others: usize,
        k: int,
        rid: RecipeId,
    ) -> bool {
        rid == entries[k].1 || crate::planner::beam::alternatives(
            *self.ar,
            *self.g,
            *self.an,
            entries[k].0,
            Some(entries[k].1),
            others,
            None,
        ).contains(rid)
    }

    proof fn part_sane(
        self,
        target: MaterialId,
        entries: Seq<(MaterialId, RecipeId)>,
        others: usize,
        k: int,
    )
        requires
            self.ok(),
            target < self.g.m_count(),
            0 <= k <= entries.len(),
            forall|i: int|
                0 <= i < entries.len() ==> (#[trigger] entries[i]).0 < self.g.m_count()
                    && entries[i].1 < self.g.r_count(),
        ensures
            self.sane(self.part_to(target, entries, others, k)),
            forall|i: int|
                0 <= i < k ==> self.part_to(target, entries, others, k).materials.contains(
                    (#[trigger] entries[i]).0,
                ),
            forall|i: int, rid: RecipeId|
                0 <= i < k && #[trigger] self.within_reach(entries, others, i, rid)
                    && self.g.recipes@[rid as int].inputs@.len() > 0
                    && self.g.recipes@[rid as int].outputs@.len() > 0 ==> has_recipe(
                    self.part_to(target, entries, others, k),
                    rid,
                ),
        decreases k,
    {
        if k > 0 {
            self.part_sane(target, entries, others, k - 1);
            let s = self.part_to(target, entries, others, k - 1);
            let (m, r) = entries[k - 1];
            assert(entries[k - 1].0 < self.g.m_count());
            let list = crate::planner::beam::alternatives(
                *self.ar,
                *self.g,
                *self.an,
                m,
                Some(r),
                others,
                None,
            );
            crate::planner::beam::alternatives_make(
                *self.ar,
                *self.g,
                *self.an,
                m,
                Some(r),
                others,
                None,
            );
            self.material_sane(s, m);
            let t = with_material(s, m);
            self.recipe_sane(t, r);
            let u = self.with_recipe(t, r);
            self.recipes_sane(u, list, list.len() as int);
            let v = self.part_to(target, entries, others, k);
            growing_keeps(s, t);
            growing_keeps(t, u);
            growing_keeps(u, v);
            assert forall|i: int, rid: RecipeId|
                0 <= i < k && #[trigger] self.within_reach(entries, others, i, rid)
                    && self.g.recipes@[rid as int].inputs@.len() > 0
                    && self.g.recipes@[rid as int].outputs@.len() > 0 implies has_recipe(v, rid) by {
                if i == k - 1 {
                    if rid == r {
                        assert(has_recipe(u, rid));
                    } else {
                        let j = choose|j: int| 0 <= j < list.len() && list[j] == rid;
                        assert(has_recipe(v, list[j]));
                    }
                } else {
                    assert(has_recipe(s, rid));
                    assert(has_recipe(t, rid));
                    assert(has_recipe(u, rid));
                }
            }
        }
    }

    /// A recipe can be judged for a material: it takes something, and gives the
    /// material as the first candidate of some slot, in more than no quantity.
    pub open spec fn judgeable(self, rid: RecipeId, m: MaterialId) -> bool {
        let r = self.g.recipes@[rid as int];
        &&& r.inputs@.len() > 0
        &&& first_quantity(r.outputs@, m, r.outputs@.len() as int) matches Some(q)
            && !self.single.le_spec(self.single.ratio_spec(q, 1), self.single.ratio_spec(0, 1))
    }

    proof fn output_found(self, s: Sub, e: SubEntry, m: MaterialId, at: usize, k: int)
        requires
            self.sane(s),
            self.entry_inside(s, e),
            at < s.materials.len(),
            s.materials[at as int] == m,
            0 <= k <= e.outputs.len(),
        ensures
            output_at(e.outputs, at, k) == match first_quantity(
                self.g.recipes@[e.rid as int].outputs@,
                m,
                k,
            ) {
                Some(q) => Some(self.single.ratio_spec(q, 1)),
                None => None,
            },
        decreases k,
    {
        if k > 0 {
            self.output_found(s, e, m, at, k - 1);
            let slots = self.g.recipes@[e.rid as int].outputs@;
            assert(self.output_inside(s, slots[k - 1], e.outputs[k - 1]));
        }
    }

    /// Every assignment that gives materials of the plan their recipe or one of
    /// the others for them can be judged in the part for the plan, so every change
    /// of the plan that a search tries can; provided that its recipes can be judged
    /// for their materials.
    pub proof fn changes_are_judged(
        self,
        target: MaterialId,
        plan: Choices,
        others: usize,
        sg: SubgraphData,
        entries: Seq<(MaterialId, RecipeId)>,
    )
        requires
            self.ok(),
            target < self.g.m_count(),
            plan.fits(*self.g),
            sg.indexed(),
            self.shows(
                sg,
                self.part_to(target, plan.entries@, others, plan.entries@.len() as int),
            ),
            forall|i: int|
                0 <= i < entries.len() ==> self.judgeable(
                    (#[trigger] entries[i]).1,
                    entries[i].0,
                ) && exists|k: int|
                    0 <= k < plan.entries@.len() && plan.entries@[k].0 == entries[i].0
                        && #[trigger] self.within_reach(plan.entries@, others, k, entries[i].1),
        ensures
            table_to(*self.single, sg, entries, entries.len() as int) is Some,
    {
        let n = plan.entries@.len() as int;
        let s = self.part_to(target, plan.entries@, others, n);
        self.part_sane(target, plan.entries@, others, n);
        assert(rids_of(s.recipes) =~= sg.recipes@) by {
            rids_same(sg);
        }
        assert forall|i: int| 0 <= i < entries.len() implies self.entry_judged(
            sg,
            #[trigger] entries[i],
        ) by {
            let (m, rid) = entries[i];
            let k = choose|k: int|
                0 <= k < plan.entries@.len() && plan.entries@[k].0 == m
                    && #[trigger] self.within_reach(plan.entries@, others, k, rid);
            assert(s.materials.contains(plan.entries@[k].0));
            let r = self.g.recipes@[rid as int];
            assert(r.outputs@.len() > 0);
            assert(has_recipe(s, rid));
            let j = choose|j: int| 0 <= j < s.recipes.len() && (#[trigger] s.recipes[j]).rid == rid;
            assert(sg.recipes@[j] == rid);
            if crate::list::place(sg.materials@, m) is None {
                crate::list::place_none(sg.materials@, m);
            }
            if crate::list::place(sg.recipes@, rid) is None {
                crate::list::place_none(sg.recipes@, rid);
                assert(sg.recipes@.contains(rid));
            }
            crate::list::place_below(sg.materials@, m);
            crate::list::place_below(sg.recipes@, rid);
            let mi = crate::list::place(sg.materials@, m)->0;
            let ri = crate::list::place(sg.recipes@, rid)->0;
            let e = s.recipes[ri as int];
            assert(sub_recipes(sg)[ri as int] == e);
            assert(self.entry_inside(s, e));
            self.output_found(s, e, m, mi, e.outputs.len() as int);
            assert(all_inside(sg, e.inputs)) by {
                assert forall|x: int| 0 <= x < e.inputs.len() implies crate::list::place(
                    sg.materials@,
                    #[trigger] e.inputs[x],
                ) is Some by {
                    assert(s.materials.contains(e.inputs[x]));
                    if crate::list::place(sg.materials@, e.inputs[x]) is None {
                        crate::list::place_none(sg.materials@, e.inputs[x]);
                    }
                }
            }
        }
        self.entries_judged(sg, entries, entries.len() as int);
    }

    /// An entry never stands in the way of judging.
    spec fn entry_judged(self, sg: SubgraphData, entry: (MaterialId, RecipeId)) -> bool {
        forall|t: Table| #[trigger] with_entry(*self.single, sg, t, entry) is Some
    }

    proof fn entries_judged(self, sg: SubgraphData, entries: Seq<(MaterialId, RecipeId)>, k: int)
        requires
            0 <= k <= entries.len(),
            forall|i: int| 0 <= i < entries.len() ==> self.entry_judged(sg, #[trigger] entries[i]),
        ensures
            table_to(*self.single, sg, entries, k) is Some,
        decreases k,
    {
        if k > 0 {
            self.entries_judged(sg, entries, k - 1);
            let t = table_to(*self.single, sg, entries, k - 1)->0;
            assert(self.entry_judged(sg, entries[k - 1]));
            assert(with_entry(*self.single, sg, t, entries[k - 1]) is Some);
        }
    }
}

/// What has a place is there.
proof fn placed(list: Seq<u32>, x: u32)
    requires
        crate::list::place(list, x) is Some,
    ensures
        list.contains(x),
    decreases list.len(),
{
    if list.last() == x {
        assert(list[list.len() - 1] == x);
    } else {
        placed(list.drop_last(), x);
        let i = choose|i: int| 0 <= i < list.drop_last().len() && list.drop_last()[i] == x;
        assert(list[i] == x);
    }
}

} // verus!

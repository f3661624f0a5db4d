//! Which part of the graph the exact planner takes in.
use vstd::prelude::*;

use crate::model::{MaterialId, RecipeId, Slot};
use crate::prices::counts_for;
use crate::program::{total, total_step};
use crate::scalar::{Arithmetic, Scalar};
use crate::scale::{floors, Scale};
use crate::solver::{
    offer_order, producer_order, taken_in, Entry, Exact, Feed, Part, MAX_PRODUCERS_PER_MATERIAL,
    MAX_SLOT_ALTS,
};

verus! {

impl<'a, A: Arithmetic> Exact<'a, A> {
    /// A candidate of a slot stands in the program: the place is that of its material,
    /// and its quantity is the whole number.
    pub open spec fn offered(
        self,
        materials: Seq<MaterialId>,
        alt: (MaterialId, u64),
        at: (usize, Scalar),
    ) -> bool {
        at.0 < materials.len() && materials[at.0 as int] == alt.0 && at.1 == self.ar.ratio_spec(
            alt.1,
            1,
        )
    }

    /// An input shows a slot: its one candidate, or a choice of its candidates, as
    /// many as there are or as are allowed, each of which is one of the slot's. One
    /// that is left out is no cheaper than any that is there.
    pub open spec fn shows_slot(self, materials: Seq<MaterialId>, slot: Slot, f: Feed) -> bool {
        match f {
            Feed::Direct { material, qty } => slot.alts@.len() == 1 && self.offered(
                materials,
                slot.alts@[0],
                (material, qty),
            ),
            Feed::Choice { alts } => {
                &&& slot.alts@.len() > 1
                &&& alts.len() == if slot.alts@.len() < MAX_SLOT_ALTS {
                    slot.alts@.len() as int
                } else {
                    MAX_SLOT_ALTS as int
                }
                &&& forall|a: int|
                    0 <= a < alts.len() ==> self.offers_one(materials, slot, #[trigger] alts[a])
                &&& forall|c: int|
                    0 <= c < slot.alts@.len() ==> self.stands_or_is_dear(
                        materials,
                        slot,
                        alts,
                        #[trigger] slot.alts@[c],
                    )
            },
        }
    }

    pub open spec fn offers_one(self, materials: Seq<MaterialId>, slot: Slot, at: (usize, Scalar)) -> bool {
        exists|c: int|
            0 <= c < slot.alts@.len() && self.offered(materials, #[trigger] slot.alts@[c], at)
    }

    /// The candidate is in the choice, or every one that is costs no more.
    pub open spec fn stands_or_is_dear(
        self,
        materials: Seq<MaterialId>,
        slot: Slot,
        alts: Seq<(usize, Scalar)>,
        alt: (MaterialId, u64),
    ) -> bool {
        (exists|a: int| 0 <= a < alts.len() && self.offered(materials, alt, #[trigger] alts[a])) || (
        alts.len() == MAX_SLOT_ALTS && forall|a: int|
            0 <= a < alts.len() ==> self.no_dearer_than(materials, slot, #[trigger] alts[a], alt))
    }

    pub open spec fn no_dearer_than(
        self,
        materials: Seq<MaterialId>,
        slot: Slot,
        at: (usize, Scalar),
        alt: (MaterialId, u64),
    ) -> bool {
        exists|c: int|
            0 <= c < slot.alts@.len() && self.offered(materials, #[trigger] slot.alts@[c], at)
                && !self.ar.total_before_spec(
                self.price(alt.0, alt.1),
                self.price(slot.alts@[c].0, slot.alts@[c].1),
            )
    }

    /// An output shows a slot: its first candidate, with what comes of it on the
    /// average.
    pub open spec fn shows_output(
        self,
        materials: Seq<MaterialId>,
        rid: RecipeId,
        slot: Slot,
        at: (usize, Scalar),
    ) -> bool {
        let (m, q) = slot.alts@[0];
        at.0 < materials.len() && materials[at.0 as int] == m && at.1 == self.ar.times_spec(
            self.ar.ratio_spec(q, 1),
            self.g.output_chance_spec(*self.ar, rid, m),
        )
    }

    /// An entry of the program shows its recipe: every input slot, and the output
    /// slots in order, all of them unless a limit was reached.
    pub open spec fn shows_recipe(self, p: Part, e: Entry) -> bool {
        let r = self.g.recipes@[e.rid as int];
        &&& e.inputs.len() == r.inputs@.len()
        &&& forall|s: int|
            0 <= s < e.inputs.len() ==> self.shows_slot(
                p.materials,
                r.inputs@[s],
                #[trigger] e.inputs[s],
            )
        &&& 0 < e.outputs.len() <= r.outputs@.len()
        &&& !p.truncated ==> e.outputs.len() == r.outputs@.len()
        &&& forall|s: int|
            0 <= s < e.outputs.len() ==> self.shows_output(
                p.materials,
                e.rid,
                r.outputs@[s],
                #[trigger] e.outputs[s],
            )
    }

    /// The part goes on from another: it holds its materials at their places, its
    /// recipes, and what waits, and a limit that was reached stays reached. Whatever
    /// is new waits.
    pub open spec fn goes_on(self, p: Part, q: Part) -> bool {
        &&& p.materials.len() <= q.materials.len()
        &&& p.materials.len() <= usize::MAX ==> q.materials.len() <= usize::MAX
        &&& self.known(p) ==> self.known(q)
        &&& forall|i: int|
            0 <= i < p.materials.len() ==> #[trigger] q.materials[i] == p.materials[i]
        &&& p.truncated ==> q.truncated
        &&& forall|m: MaterialId| #[trigger] waits(p, m) ==> waits(q, m)
        &&& forall|i: int|
            p.materials.len() <= i < q.materials.len() ==> waits(q, #[trigger] q.materials[i])
    }

    /// The materials are those of the graph.
    pub open spec fn known(self, p: Part) -> bool {
        &&& forall|i: int|
            0 <= i < p.materials.len() ==> #[trigger] p.materials[i] < self.g.m_count()
        &&& forall|i: int|
            0 <= i < p.waiting.len() ==> (#[trigger] p.waiting[i]).1 < self.g.m_count()
    }

    proof fn goes_on_further(self, p: Part, q: Part, r: Part)
        requires
            self.goes_on(p, q),
            self.goes_on(q, r),
        ensures
            self.goes_on(p, r),
    {
        assert forall|i: int| 0 <= i < p.materials.len() implies #[trigger] r.materials[i]
            == p.materials[i] by {
            assert(q.materials[i] == p.materials[i]);
        }
        assert forall|i: int| p.materials.len() <= i < r.materials.len() implies waits(
            r,
            #[trigger] r.materials[i],
        ) by {
            if i < q.materials.len() {
                assert(waits(q, q.materials[i]));
                assert(r.materials[i] == q.materials[i]);
            }
        }
    }

    proof fn material_goes_on(self, p: Part, m: MaterialId)
        requires
            m < self.g.m_count(),
        ensures
            self.goes_on(p, self.with_material(p, m)),
            self.with_material(p, m).recipes == p.recipes,
            !self.with_material(p, m).truncated ==> crate::list::place(
                self.with_material(p, m).materials,
                m,
            ) is Some,
    {
        let q = self.with_material(p, m);
        assert forall|x: MaterialId| #[trigger] waits(p, x) implies waits(q, x) by {
            let i = choose|i: int| 0 <= i < p.waiting.len() && (#[trigger] p.waiting[i]).1 == x;
            assert(q.waiting[i] == p.waiting[i]);
        }
        if q.materials.len() > p.materials.len() {
            assert(q.materials.last() == m);
            assert(q.waiting[p.waiting.len() as int].1 == m);
            assert(waits(q, m));
        }
    }

    proof fn offer_goes_on(self, p: Part, alts: Seq<(MaterialId, u64)>, a: int)
        requires
            0 <= a <= alts.len(),
            p.materials.len() <= usize::MAX,
            forall|j: int| 0 <= j < alts.len() ==> (#[trigger] alts[j]).0 < self.g.m_count(),
        ensures
            ({
                let o = self.offer_to(p, alts, a);
                &&& self.goes_on(p, o.part)
                &&& o.part.recipes == p.recipes
                &&& !o.part.truncated ==> o.usable
                &&& o.usable ==> o.alts.len() == a && forall|j: int|
                    0 <= j < a ==> self.priced_offer(o.part.materials, alts[j], #[trigger] o.alts[j])
            }),
        decreases a,
    {
        if a > 0 {
            self.offer_goes_on(p, alts, a - 1);
            let before = self.offer_to(p, alts, a - 1);
            let o = self.offer_to(p, alts, a);
            if before.usable {
                let (m, q) = alts[a - 1];
                self.material_goes_on(before.part, m);
                self.goes_on_further(p, before.part, o.part);
                crate::list::place_below(o.part.materials, m);
                if o.usable {
                    assert forall|j: int| 0 <= j < a implies self.priced_offer(
                        o.part.materials,
                        alts[j],
                        #[trigger] o.alts[j],
                    ) by {
                        if j < a - 1 {
                            assert(o.alts[j] == before.alts[j]);
                            assert(self.priced_offer(
                                before.part.materials,
                                alts[j],
                                before.alts[j],
                            ));
                            assert(o.part.materials[before.alts[j].0 as int]
                                == before.part.materials[before.alts[j].0 as int]);
                        }
                    }
                }
            }
        }
    }

    pub open spec fn priced_offer(
        self,
        materials: Seq<MaterialId>,
        alt: (MaterialId, u64),
        at: (usize, u64, Scalar),
    ) -> bool {
        at.0 < materials.len() && materials[at.0 as int] == alt.0 && at.1 == alt.1 && at.2
            == self.price(alt.0, alt.1)
    }

    proof fn feed_shows(
        self,
        materials: Seq<MaterialId>,
        slot: Slot,
        offers: Seq<(usize, u64, Scalar)>,
    )
        requires
            0 < offers.len() == slot.alts@.len() <= usize::MAX,
            forall|j: int|
                0 <= j < offers.len() ==> self.priced_offer(
                    materials,
                    slot.alts@[j],
                    #[trigger] offers[j],
                ),
        ensures
            self.shows_slot(materials, slot, self.feed(offers)),
    {
        if offers.len() == 1 {
            assert(self.priced_offer(materials, slot.alts@[0], offers[0]));
        } else {
            let before = offer_order(*self.ar, offers);
            let n = offers.len() as int;
            self.ar.total_before_orders();
            assert(crate::order::orders(before, n));
            crate::order::stable_order_exists(before, n);
            let ranked = crate::order::sorted(offers, before);
            assert(crate::order::sorted_by(offers, before, ranked)) by {
                let p = choose|p: Seq<usize>| #[trigger] crate::order::stable_order(before, n, p);
                assert(ranked == crate::order::listed(offers, p));
            }
            crate::order::sorted_by_permutes(offers, before, ranked);
            let alts = self.feed(offers)->alts;
            assert forall|a: int| 0 <= a < alts.len() implies self.offers_one(
                materials,
                slot,
                #[trigger] alts[a],
            ) by {
                assert(offers.contains(ranked[a]));
                let c = choose|c: int| 0 <= c < offers.len() && offers[c] == ranked[a];
                assert(self.priced_offer(materials, slot.alts@[c], offers[c]));
                assert(self.offered(materials, slot.alts@[c], alts[a]));
            }
            assert forall|c: int| 0 <= c < slot.alts@.len() implies self.stands_or_is_dear(
                materials,
                slot,
                alts,
                #[trigger] slot.alts@[c],
            ) by {
                assert(self.priced_offer(materials, slot.alts@[c], offers[c]));
                assert(ranked.contains(offers[c]));
                let k = choose|k: int| 0 <= k < ranked.len() && ranked[k] == offers[c];
                if k < alts.len() {
                    assert(self.offered(materials, slot.alts@[c], alts[k]));
                } else {
                    assert forall|a: int| 0 <= a < alts.len() implies self.no_dearer_than(
                        materials,
                        slot,
                        #[trigger] alts[a],
                        slot.alts@[c],
                    ) by {
                        assert(crate::order::comes_ahead(offers, before, ranked[a], ranked[k]));
                        let (x, y) = choose|x: int, y: int|
                            0 <= x < n && 0 <= y < n && #[trigger] offers[x] == ranked[a]
                                && #[trigger] offers[y] == ranked[k] && crate::order::ahead(
                                before,
                                x,
                                y,
                            );
                        assert(before(x, y) || !before(y, x));
                        assert(self.priced_offer(materials, slot.alts@[x], offers[x]));
                        assert(self.offered(materials, slot.alts@[x], alts[a]));
                    }
                }
            }
        }
    }

    proof fn slot_stays(self, p: Part, q: Part, slot: Slot, f: Feed)
        requires
            self.goes_on(p, q),
            self.shows_slot(p.materials, slot, f),
        ensures
            self.shows_slot(q.materials, slot, f),
    {
        if let Feed::Choice { alts } = f {
            assert forall|a: int| 0 <= a < alts.len() implies self.offers_one(
                q.materials,
                slot,
                #[trigger] alts[a],
            ) by {
                assert(self.offers_one(p.materials, slot, alts[a]));
                let c = choose|c: int|
                    0 <= c < slot.alts@.len() && self.offered(
                        p.materials,
                        #[trigger] slot.alts@[c],
                        alts[a],
                    );
                assert(self.offered(q.materials, slot.alts@[c], alts[a]));
            }
            assert forall|c: int| 0 <= c < slot.alts@.len() implies self.stands_or_is_dear(
                q.materials,
                slot,
                alts,
                #[trigger] slot.alts@[c],
            ) by {
                let alt = slot.alts@[c];
                assert(self.stands_or_is_dear(p.materials, slot, alts, slot.alts@[c]));
                if exists|a: int|
                    0 <= a < alts.len() && self.offered(p.materials, alt, #[trigger] alts[a]) {
                    let a = choose|a: int|
                        0 <= a < alts.len() && self.offered(p.materials, alt, #[trigger] alts[a]);
                    assert(self.offered(q.materials, alt, alts[a]));
                } else {
                    assert forall|a: int| 0 <= a < alts.len() implies self.no_dearer_than(
                        q.materials,
                        slot,
                        #[trigger] alts[a],
                        alt,
                    ) by {
                        assert(self.no_dearer_than(p.materials, slot, alts[a], alt));
                        let d = choose|d: int|
                            0 <= d < slot.alts@.len() && self.offered(
                                p.materials,
                                #[trigger] slot.alts@[d],
                                alts[a],
                            ) && !self.ar.total_before_spec(
                                self.price(alt.0, alt.1),
                                self.price(slot.alts@[d].0, slot.alts@[d].1),
                            );
                        assert(self.offered(q.materials, slot.alts@[d], alts[a]));
                    }
                }
            }
        }
    }

    proof fn intake_shows(self, p: Part, slots: Seq<Slot>, s: int)
        requires
            0 <= s <= slots.len(),
            p.materials.len() <= usize::MAX,
            crate::graph::slots_ok(slots, self.g.m_count()),
        ensures
            ({
                let i = self.intake_to(p, slots, s);
                &&& self.goes_on(p, i.part)
                &&& i.part.recipes == p.recipes
                &&& !i.part.truncated ==> i.usable
                &&& i.usable ==> i.inputs.len() == s && forall|k: int|
                    0 <= k < s ==> self.shows_slot(i.part.materials, slots[k], #[trigger] i.inputs[k])
            }),
        decreases s,
    {
        if s > 0 {
            self.intake_shows(p, slots, s - 1);
            let before = self.intake_to(p, slots, s - 1);
            let i = self.intake_to(p, slots, s);
            if before.usable {
                let slot = slots[s - 1];
                assert(crate::graph::slot_ok(slot, self.g.m_count()));
                assert(slot.alts@.len() == slot.alts.len());
                let n = slot.alts@.len() as int;
                self.offer_goes_on(before.part, slot.alts@, n);
                let offer = self.offer_to(before.part, slot.alts@, n);
                self.goes_on_further(p, before.part, i.part);
                if i.usable {
                    self.feed_shows(i.part.materials, slot, offer.alts);
                    assert forall|k: int| 0 <= k < s implies self.shows_slot(
                        i.part.materials,
                        slots[k],
                        #[trigger] i.inputs[k],
                    ) by {
                        if k < s - 1 {
                            assert(i.inputs[k] == before.inputs[k]);
                            self.slot_stays(before.part, i.part, slots[k], before.inputs[k]);
                        }
                    }
                }
            }
        }
    }

    proof fn output_shows(self, p: Part, rid: RecipeId, s: int)
        requires
            self.ok(),
            rid < self.g.r_count(),
            0 <= s <= self.g.recipes@[rid as int].outputs@.len(),
            p.materials.len() <= usize::MAX,
        ensures
            ({
                let o = self.output_to(p, rid, s);
                &&& self.goes_on(p, o.part)
                &&& o.part.recipes == p.recipes
                &&& o.stopped ==> o.part.truncated
                &&& o.outputs.len() <= s
                &&& !o.stopped ==> o.outputs.len() == s
                &&& forall|k: int|
                    0 <= k < o.outputs.len() ==> self.shows_output(
                        o.part.materials,
                        rid,
                        self.g.recipes@[rid as int].outputs@[k],
                        #[trigger] o.outputs[k],
                    )
            }),
        decreases s,
    {
        if s > 0 {
            self.output_shows(p, rid, s - 1);
            let before = self.output_to(p, rid, s - 1);
            let o = self.output_to(p, rid, s);
            let slot = self.g.recipes@[rid as int].outputs@[s - 1];
            assert(crate::graph::slot_ok(slot, self.g.m_count()));
            let (m, q) = slot.alts@[0];
            if !before.stopped {
                self.material_goes_on(before.part, m);
                self.goes_on_further(p, before.part, o.part);
                crate::list::place_below(o.part.materials, m);
                assert forall|k: int| 0 <= k < o.outputs.len() implies self.shows_output(
                    o.part.materials,
                    rid,
                    self.g.recipes@[rid as int].outputs@[k],
                    #[trigger] o.outputs[k],
                ) by {
                    if k < s - 1 {
                        assert(o.outputs[k] == before.outputs[k]);
                        assert(self.shows_output(
                            before.part.materials,
                            rid,
                            self.g.recipes@[rid as int].outputs@[k],
                            before.outputs[k],
                        ));
                        let at = before.outputs[k].0 as int;
                        assert(o.part.materials[at] == before.part.materials[at]);
                    }
                }
            }
        }
    }
}

impl<'a, A: Arithmetic> Exact<'a, A> {
    /// The recipe is in the program, or there is a reason that it is not: it takes or
    /// makes nothing, or it is kept out because it makes more of what goes round than
    /// it takes.
    pub open spec fn in_or_out(self, p: Part, rid: RecipeId) -> bool {
        let r = self.g.recipes@[rid as int];
        taken_in(p.recipes, rid) || r.inputs@.len() == 0 || r.outputs@.len() == 0 || self.amplifies(
            rid,
        )
    }

    /// The producers of a material are in, or out for a reason.
    pub open spec fn served(self, p: Part, m: MaterialId) -> bool {
        forall|k: int|
            0 <= k < self.chosen_producers(m).len() ==> self.in_or_out(
                p,
                (#[trigger] self.chosen_producers(m)[k]).1,
            )
    }

    /// The recipes of the program are shown, and unless a limit was reached the
    /// producers of every material are in, or out for a reason, or wait.
    pub open spec fn sound(self, p: Part) -> bool {
        &&& p.materials.len() <= usize::MAX
        &&& self.known(p)
        &&& forall|i: int|
            0 <= i < p.recipes.len() ==> (#[trigger] p.recipes[i]).rid < self.g.r_count()
                && self.shows_recipe(p, p.recipes[i])
        &&& !p.truncated ==> forall|i: int|
            0 <= i < p.materials.len() ==> waits(p, #[trigger] p.materials[i]) || self.served(
                p,
                p.materials[i],
            )
    }

    proof fn shown_stays(self, p: Part, q: Part, e: Entry)
        requires
            self.goes_on(p, q),
            self.shows_recipe(p, e),
        ensures
            self.shows_recipe(q, e),
    {
        let r = self.g.recipes@[e.rid as int];
        assert forall|s: int| 0 <= s < e.inputs.len() implies self.shows_slot(
            q.materials,
            r.inputs@[s],
            #[trigger] e.inputs[s],
        ) by {
            self.slot_stays(p, q, r.inputs@[s], e.inputs[s]);
        }
        assert forall|s: int| 0 <= s < e.outputs.len() implies self.shows_output(
            q.materials,
            e.rid,
            r.outputs@[s],
            #[trigger] e.outputs[s],
        ) by {
            assert(self.shows_output(p.materials, e.rid, r.outputs@[s], e.outputs[s]));
            let at = e.outputs[s].0 as int;
            assert(q.materials[at] == p.materials[at]);
        }
    }

    /// The recipes go on too.
    spec fn adds(self, p: Part, q: Part) -> bool {
        &&& self.goes_on(p, q)
        &&& forall|r: RecipeId| #[trigger] taken_in(p.recipes, r) ==> taken_in(q.recipes, r)
    }

    spec fn all_shown(self, p: Part) -> bool {
        &&& p.materials.len() <= usize::MAX
        &&& forall|i: int|
            0 <= i < p.recipes.len() ==> (#[trigger] p.recipes[i]).rid < self.g.r_count()
                && self.shows_recipe(p, p.recipes[i])
    }

    proof fn all_stay(self, p: Part, q: Part)
        requires
            self.goes_on(p, q),
            self.all_shown(p),
            q.recipes == p.recipes,
        ensures
            self.all_shown(q),
            self.adds(p, q),
    {
        assert forall|i: int| 0 <= i < q.recipes.len() implies (#[trigger] q.recipes[i]).rid
            < self.g.r_count() && self.shows_recipe(q, q.recipes[i]) by {
            assert(self.shows_recipe(p, p.recipes[i]));
            self.shown_stays(p, q, p.recipes[i]);
        }
    }

    proof fn stays_itself(self, p: Part, q: Part)
        requires
            q.materials == p.materials,
            q.waiting == p.waiting,
            p.truncated ==> q.truncated,
        ensures
            self.goes_on(p, q),
    {
        assert forall|x: MaterialId| #[trigger] waits(p, x) implies waits(q, x) by {
            let i = choose|i: int| 0 <= i < p.waiting.len() && (#[trigger] p.waiting[i]).1 == x;
            assert(q.waiting[i].1 == x);
        }
    }

    proof fn recipe_adds(self, p: Part, rid: RecipeId)
        requires
            self.ok(),
            rid < self.g.r_count(),
            self.all_shown(p),
        ensures
            self.adds(p, self.with_recipe(p, rid)),
            self.all_shown(self.with_recipe(p, rid)),
            !self.with_recipe(p, rid).truncated ==> self.in_or_out(self.with_recipe(p, rid), rid),
    {
        let r = self.g.recipes@[rid as int];
        let q = self.with_recipe(p, rid);
        if self.passed_over(p, rid) || self.amplifies(rid) || self.full(p) {
            self.stays_itself(p, q);
            self.all_stay(p, q);
        } else {
            assert(crate::graph::slots_ok(r.inputs@, self.g.m_count()));
            let n = r.inputs@.len() as int;
            self.intake_shows(p, r.inputs@, n);
            let intake = self.intake_to(p, r.inputs@, n);
            if !intake.usable {
                self.all_stay(p, q);
            } else {
                let k = r.outputs@.len() as int;
                self.output_shows(intake.part, rid, k);
                let out = self.output_to(intake.part, rid, k);
                self.goes_on_further(p, intake.part, out.part);
                self.all_stay(p, out.part);
                if out.outputs.len() > 0 {
                    let e = Entry { rid, inputs: intake.inputs, outputs: out.outputs };
                    self.stays_itself(out.part, q);
                    self.goes_on_further(p, out.part, q);
                    assert forall|s: int| 0 <= s < e.inputs.len() implies self.shows_slot(
                        out.part.materials,
                        r.inputs@[s],
                        #[trigger] e.inputs[s],
                    ) by {
                        self.slot_stays(intake.part, out.part, r.inputs@[s], intake.inputs[s]);
                    }
                    assert(self.shows_recipe(out.part, e));
                    self.shown_stays(out.part, q, e);
                    assert forall|i: int| 0 <= i < q.recipes.len() implies (
                    #[trigger] q.recipes[i]).rid < self.g.r_count() && self.shows_recipe(
                        q,
                        q.recipes[i],
                    ) by {
                        if i < out.part.recipes.len() {
                            assert(self.shows_recipe(out.part, out.part.recipes[i]));
                            self.shown_stays(out.part, q, out.part.recipes[i]);
                        }
                    }
                    assert forall|x: RecipeId| #[trigger] taken_in(p.recipes, x) implies taken_in(
                        q.recipes,
                        x,
                    ) by {
                        let i = choose|i: int|
                            0 <= i < p.recipes.len() && (#[trigger] p.recipes[i]).rid == x;
                        assert(q.recipes[i] == p.recipes[i]);
                    }
                    assert(q.recipes[q.recipes.len() - 1].rid == rid);
                }
            }
        }
    }

    proof fn recipes_add(self, p: Part, list: Seq<(Scalar, RecipeId)>, i: nat)
        requires
            self.ok(),
            self.all_shown(p),
            i <= list.len(),
            forall|k: int| 0 <= k < list.len() ==> (#[trigger] list[k]).1 < self.g.r_count(),
        ensures
            self.adds(p, self.with_recipes(p, list, i)),
            self.all_shown(self.with_recipes(p, list, i)),
            !self.with_recipes(p, list, i).truncated ==> forall|k: int|
                i <= k < list.len() ==> self.in_or_out(
                    self.with_recipes(p, list, i),
                    (#[trigger] list[k]).1,
                ),
        decreases list.len() - i,
    {
        if i < list.len() {
            let q = self.with_recipe(p, list[i as int].1);
            self.recipe_adds(p, list[i as int].1);
            if !self.stops(p, list[i as int].1) {
                self.recipes_add(q, list, i + 1);
                self.goes_on_further(p, q, self.with_recipes(p, list, i));
            }
        } else {
            self.stays_itself(p, p);
        }
    }

    proof fn producers_are_known(self, skipped: usize, m: MaterialId, i: int)
        requires
            self.ok(),
            m < self.g.m_count(),
            0 <= i <= self.g.producers@[m as int]@.len(),
        ensures
            ({
                let list = self.producers_to(skipped, m, i).list;
                &&& list.len() <= i
                &&& forall|k: int|
                    0 <= k < list.len() ==> (#[trigger] list[k]).1 < self.g.r_count()
                        && self.usable(list[k].1) && list[k].0 == self.score(list[k].1, m)
            }),
        decreases i,
    {
        if i > 0 {
            self.producers_are_known(skipped, m, i - 1);
            let p = |r: int| self.g.produces(r, m as int as u32);
            assert(crate::graph::lists(self.g.producers@[m as int]@, self.g.r_count(), p));
        }
    }

    proof fn producers_rank(self, m: MaterialId)
        requires
            self.ok(),
            m < self.g.m_count(),
        ensures
            ({
                let n = self.g.producers@[m as int]@.len() as int;
                let all = self.producers_to(0, m, n).list;
                let ranked = crate::order::sorted(all, producer_order(*self.ar, all));
                &&& ranked.len() == all.len()
                &&& forall|k: int| 0 <= k < all.len() ==> ranked.contains(#[trigger] all[k])
                &&& forall|k: int| 0 <= k < ranked.len() ==> all.contains(#[trigger] ranked[k])
                &&& forall|a: int, b: int|
                    0 <= a < b < ranked.len() ==> !self.ar.total_before_spec(
                        (#[trigger] ranked[b]).0,
                        (#[trigger] ranked[a]).0,
                    )
            }),
    {
        let n = self.g.producers@[m as int]@.len() as int;
        let all = self.producers_to(0, m, n).list;
        let before = producer_order(*self.ar, all);
        let ranked = crate::order::sorted(all, before);
        self.producers_are_known(0, m, n);
        assert(n == self.g.producers@[m as int].len());
        crate::solver::producer_order_orders(*self.ar, all);
        crate::order::stable_order_exists(before, all.len() as int);
        assert(crate::order::sorted_by(all, before, ranked)) by {
            let p = choose|p: Seq<usize>| #[trigger]
                crate::order::stable_order(before, all.len() as int, p);
            assert(ranked == crate::order::listed(all, p));
        }
        crate::order::sorted_by_permutes(all, before, ranked);
        self.ar.total_before_orders();
        assert forall|a: int, b: int| 0 <= a < b < ranked.len() implies !self.ar.total_before_spec(
            (#[trigger] ranked[b]).0,
            (#[trigger] ranked[a]).0,
        ) by {
            assert(crate::order::comes_ahead(all, before, ranked[a], ranked[b]));
            let (x, y) = choose|x: int, y: int|
                0 <= x < all.len() && 0 <= y < all.len() && #[trigger] all[x] == ranked[a]
                    && #[trigger] all[y] == ranked[b] && crate::order::ahead(before, x, y);
            assert(before(x, y) || !before(y, x));
            if self.ar.total_before_spec(all[y].0, all[x].0) && self.ar.total_before_spec(
                all[x].0,
                all[y].0,
            ) {
                assert(self.ar.total_before_spec(all[x].0, all[x].0));
            }
        }
    }

    /// Every producer of a material that can be used is among those that are taken
    /// in, unless those are as many as are allowed and none of them is dearer.
    pub proof fn producers_are_chosen(self, m: MaterialId, rid: RecipeId)
        requires
            self.ok(),
            m < self.g.m_count(),
            rid < self.g.r_count(),
            self.g.produces(rid as int, m),
            self.allowed(rid),
        ensures
            ({
                let list = self.chosen_producers(m);
                (exists|k: int| 0 <= k < list.len() && (#[trigger] list[k]).1 == rid) || (
                list.len() == MAX_PRODUCERS_PER_MATERIAL && forall|k: int|
                    0 <= k < list.len() ==> !self.ar.total_before_spec(
                        self.score(rid, m),
                        self.score((#[trigger] list[k]).1, m),
                    ))
            }),
    {
        let n = self.g.producers@[m as int]@.len() as int;
        let p = |r: int| self.g.produces(r, m as int as u32);
        assert(crate::graph::lists(self.g.producers@[m as int]@, self.g.r_count(), p));
        assert(p(rid as int));
        assert(self.g.producers@[m as int]@.contains(rid as int as u32));
        let at = choose|at: int| 0 <= at < n && self.g.producers@[m as int]@[at] == rid;
        let k = self.producer_at(m, rid, at, n);
        self.producers_rank(m);
        self.producers_are_known(0, m, n);
        let all = self.producers_to(0, m, n).list;
        let ranked = crate::order::sorted(all, producer_order(*self.ar, all));
        assert(ranked.contains(all[k]));
        let j = choose|j: int| 0 <= j < ranked.len() && ranked[j] == all[k];
        let list = self.chosen_producers(m);
        if j < MAX_PRODUCERS_PER_MATERIAL {
            assert(list[j].1 == rid);
        } else {
            assert forall|k: int| 0 <= k < list.len() implies !self.ar.total_before_spec(
                self.score(rid, m),
                self.score((#[trigger] list[k]).1, m),
            ) by {
                assert(list[k] == ranked[k]);
                assert(all.contains(ranked[k]));
                assert(!self.ar.total_before_spec(ranked[j].0, ranked[k].0));
            }
        }
    }

    proof fn producer_at(self, m: MaterialId, rid: RecipeId, at: int, i: int) -> (k: int)
        requires
            0 <= at < i <= self.g.producers@[m as int]@.len(),
            self.g.producers@[m as int]@[at] == rid,
            self.usable(rid),
        ensures
            0 <= k < self.producers_to(0, m, i).list.len(),
            self.producers_to(0, m, i).list[k] == (self.score(rid, m), rid),
        decreases i,
    {
        if at < i - 1 {
            self.producer_at(m, rid, at, i - 1)
        } else {
            self.producers_to(0, m, i - 1).list.len() as int
        }
    }

    proof fn first_is_there(waiting: Seq<(u64, MaterialId)>, i: int)
        requires
            0 < i <= waiting.len(),
        ensures
            0 <= crate::solver::first_to(waiting, i) < i,
        decreases i,
    {
        if i > 1 {
            Self::first_is_there(waiting, i - 1);
        }
    }

    proof fn step_is_sound(self, p: Part)
        requires
            self.ok(),
            self.sound(p),
            !self.done(p),
        ensures
            self.sound(self.step(p)),
    {
        let at = crate::solver::first_to(p.waiting, p.waiting.len() as int);
        Self::first_is_there(p.waiting, p.waiting.len() as int);
        let m = p.waiting[at].1;
        let n = self.g.producers@[m as int]@.len() as int;
        let prods = self.producers_to(p.skipped_recycling, m, n);
        let p1 = Part { waiting: p.waiting.remove(at), skipped_recycling: prods.skipped, ..p };
        let list = self.chosen_producers(m);
        self.producers_rank(m);
        self.producers_are_known(0, m, n);
        let all = self.producers_to(0, m, n).list;
        let ranked = crate::order::sorted(all, producer_order(*self.ar, all));
        assert forall|k: int| 0 <= k < list.len() implies (#[trigger] list[k]).1
            < self.g.r_count() by {
            assert(list[k] == ranked[k]);
            assert(all.contains(ranked[k]));
        }
        assert(self.all_shown(p1)) by {
            assert forall|i: int| 0 <= i < p1.recipes.len() implies (#[trigger] p1.recipes[i]).rid
                < self.g.r_count() && self.shows_recipe(p1, p1.recipes[i]) by {
                assert(self.shows_recipe(p, p.recipes[i]));
            }
        }
        assert(self.known(p1)) by {
            assert forall|i: int| 0 <= i < p1.waiting.len() implies (#[trigger] p1.waiting[i]).1
                < self.g.m_count() by {
                if i < at {
                    assert(p1.waiting[i] == p.waiting[i]);
                } else {
                    assert(p1.waiting[i] == p.waiting[i + 1]);
                }
            }
        }
        self.recipes_add(p1, list, 0);
        let q = self.step(p);
        assert(q == self.with_recipes(p1, list, 0));
        if !q.truncated {
            assert forall|i: int| 0 <= i < q.materials.len() implies waits(
                q,
                #[trigger] q.materials[i],
            ) || self.served(q, q.materials[i]) by {
                let x = q.materials[i];
                if i < p.materials.len() {
                    assert(p1.materials[i] == x);
                    if x == m {
                        assert(self.served(q, m));
                    } else if waits(p, p.materials[i]) {
                        let w = choose|w: int|
                            0 <= w < p.waiting.len() && (#[trigger] p.waiting[w]).1 == x;
                        if w < at {
                            assert(p1.waiting[w] == p.waiting[w]);
                        } else {
                            assert(p1.waiting[w - 1] == p.waiting[w]);
                        }
                        assert(waits(p1, x));
                    } else {
                        assert(self.served(p, x));
                        assert forall|k: int|
                            0 <= k < self.chosen_producers(x).len() implies self.in_or_out(
                            q,
                            (#[trigger] self.chosen_producers(x)[k]).1,
                        ) by {
                            let rid = self.chosen_producers(x)[k].1;
                            assert(self.in_or_out(p, rid));
                            if taken_in(p.recipes, rid) {
                                assert(taken_in(p1.recipes, rid));
                            }
                        }
                    }
                }
            }
        }
    }

    proof fn after_is_sound(self, p: Part, k: nat)
        requires
            self.ok(),
            self.sound(p),
        ensures
            self.sound(self.after(p, k)),
        decreases k,
    {
        if k > 0 && !self.done(p) {
            self.step_is_sound(p);
            self.after_is_sound(self.step(p), (k - 1) as nat);
        }
    }

    /// The part that matters is complete: every recipe of the program is shown, and
    /// unless a limit was reached every producer that was chosen for any material of
    /// the program is in it, or out for a reason.
    pub proof fn part_is_complete(self, p: Part)
        requires
            self.ok(),
            self.matters(p),
        ensures
            forall|i: int|
                0 <= i < p.recipes.len() ==> self.shows_recipe(p, #[trigger] p.recipes[i]),
            !p.truncated ==> forall|i: int|
                0 <= i < p.materials.len() ==> self.served(p, #[trigger] p.materials[i]),
    {
        let k = choose|k: nat| p == #[trigger] self.after(self.start(), k) && self.done(p);
        let s = self.start();
        assert(self.sound(s)) by {
            assert(s.waiting[0].1 == self.target);
            assert forall|i: int| 0 <= i < s.materials.len() implies waits(
                s,
                #[trigger] s.materials[i],
            ) by {
                assert(s.waiting[0].1 == s.materials[i]);
            }
        }
        self.after_is_sound(s, k);
        if !p.truncated {
            assert forall|i: int| 0 <= i < p.materials.len() implies self.served(
                p,
                #[trigger] p.materials[i],
            ) by {
                assert(waits(p, p.materials[i]) || self.served(p, p.materials[i]));
            }
        }
    }
}

impl<'a, A: Arithmetic> Exact<'a, A> {
    /// A recipe is allowed: it can be planned with, takes nothing apart that was made
    /// unless that is asked for, and is of no higher tier than is asked for.
    pub open spec fn allowed(self, rid: RecipeId) -> bool {
        &&& self.g.plannable@[rid as int]
        &&& self.g.recycling_spec(rid) ==> self.opts.include_recycling
        &&& self.opts.max_tier matches Some(limit) ==> (self.g.recipes@[rid as int].gt matches Some(
            gt,
        ) ==> (gt.tier_index matches Some(t) ==> t <= limit))
    }

    /// The program holds no recipe that is not allowed, none twice, and none that
    /// makes more of what goes round than it takes where that is kept out.
    pub proof fn program_is_allowed(self, p: Part, i: int)
        requires
            self.kept(p),
            0 <= i < p.recipes.len(),
        ensures
            self.allowed(p.recipes[i].rid),
            !self.amplifies(p.recipes[i].rid),
            forall|j: int|
                0 <= j < p.recipes.len() && j != i ==> (#[trigger] p.recipes[j]).rid
                    != p.recipes[i].rid,
    {
        assert(self.usable(p.recipes[i].rid));
    }

    /// A recipe is ranked by what it makes one of the material at: what an operation
    /// costs, divided by the quantity.
    pub proof fn ranked_by_price(self, w: Scale, rid: RecipeId, m: MaterialId, q: u64)
        requires
            w.measures(*self.ar),
            crate::util::qty_in(self.g.recipes@[rid as int].outputs@, m) == Some(q),
            ({
                let rc = crate::util::recipe_cost_spec(
                    *self.ar,
                    *self.g,
                    self.an.cost.unit_cost@,
                    Some(self.an.cost.cyclic@),
                    self.g.recipes@[rid as int],
                );
                let n = crate::util::mat_norm_spec(*self.ar, *self.g, m, q);
                w.amount(rc) && (w.fits)(n) && (w.of)(n) > 0 && (w.fits)(self.ar.over_spec(rc, n))
            }),
        ensures
            exists|n: int| #[trigger]
                counts_for(w, *self.g, m, q, n) && floors(
                    (w.of)(self.score(rid, m)),
                    (w.of)(
                        crate::util::recipe_cost_spec(
                            *self.ar,
                            *self.g,
                            self.an.cost.unit_cost@,
                            Some(self.an.cost.cyclic@),
                            self.g.recipes@[rid as int],
                        ),
                    ) * w.unit,
                    n,
                ),
    {
        let n = crate::util::mat_norm_spec(*self.ar, *self.g, m, q);
        w.whole(*self.ar, 0);
        crate::prices::quantities_count(w, *self.ar, *self.g, m, q);
        assert(counts_for(w, *self.g, m, q, (w.of)(n)));
    }

    /// A candidate of a slot is ranked by its quantity times the cost of one, or of a
    /// million where the material is out of reach.
    pub proof fn offered_by_price(self, w: Scale, m: MaterialId, q: u64)
        requires
            w.measures(*self.ar),
            crate::prices::quantity_fits(w, *self.ar, *self.g, m, q),
            (w.fits)(self.ar.ratio_spec(1_000_000, 1)),
            (w.fits)(self.price(m, q)),
            self.ar.finite_spec(self.an.cost.unit_cost@[m as int]) ==> w.amount(
                self.an.cost.unit_cost@[m as int],
            ),
        ensures
            ({
                let c = self.an.cost.unit_cost@[m as int];
                crate::prices::costs(
                    w,
                    *self.g,
                    if self.ar.finite_spec(c) {
                        (w.of)(c)
                    } else {
                        1_000_000 * w.unit
                    },
                    (m, q),
                    (w.of)(self.price(m, q)),
                )
            }),
    {
        let n = crate::util::mat_norm_spec(*self.ar, *self.g, m, q);
        crate::prices::quantities_count(w, *self.ar, *self.g, m, q);
        w.whole(*self.ar, 1_000_000);
        let c = self.an.cost.unit_cost@[m as int];
        let each = if self.ar.finite_spec(c) {
            c
        } else {
            self.ar.ratio_spec(1_000_000, 1)
        };
        assert(w.amount(each) && w.amount(n));
        assert(floors((w.of)(self.price(m, q)), (w.of)(each) * (w.of)(n), w.unit));
        let alt = (m, q);
        assert(counts_for(w, *self.g, alt.0, alt.1, (w.of)(n)));
    }

    /// What the first candidates of the slots count for together.
    pub open spec fn given_parts(self, w: Scale, slots: Seq<Slot>) -> spec_fn(int) -> int {
        |s: int|
            (w.of)(
                crate::util::mat_norm_spec(
                    *self.ar,
                    *self.g,
                    slots[s].alts@[0].0,
                    slots[s].alts@[0].1,
                ),
            )
    }

    /// What the cheapest candidates of the slots count for together.
    pub open spec fn used_parts(self, w: Scale, slots: Seq<Slot>) -> spec_fn(int) -> int {
        |s: int|
            (w.of)(
                crate::util::mat_norm_spec(*self.ar, *self.g, self.cheapest(slots[s]).0, self.cheapest(slots[s]).1),
            )
    }

    pub open spec fn cheapest(self, slot: Slot) -> (MaterialId, u64) {
        crate::util::cheapest_spec(
            *self.ar,
            *self.g,
            self.an.cost.unit_cost@,
            Some(self.an.cost.cyclic@),
            slot,
        )->0
    }

    proof fn given_is_sum(self, w: Scale, slots: Seq<Slot>, s: int)
        requires
            w.measures(*self.ar),
            0 <= s <= slots.len(),
            crate::graph::slots_ok(slots, self.g.m_count()),
            forall|k: int| 0 <= k <= slots.len() ==> (w.fits)(#[trigger] self.given_to(slots, k)),
            forall|k: int|
                0 <= k < slots.len() ==> crate::prices::quantity_fits(
                    w,
                    *self.ar,
                    *self.g,
                    (#[trigger] slots[k]).alts@[0].0,
                    slots[k].alts@[0].1,
                ),
        ensures
            (w.of)(self.given_to(slots, s)) == total(s as nat, self.given_parts(w, slots)),
        decreases s,
    {
        if s == 0 {
            w.whole(*self.ar, 0);
        } else {
            self.given_is_sum(w, slots, s - 1);
            total_step(s as nat, self.given_parts(w, slots));
            assert(crate::graph::slot_ok(slots[s - 1], self.g.m_count()));
            assert((w.fits)(self.given_to(slots, s - 1)) && (w.fits)(self.given_to(slots, s)));
        }
    }

    proof fn used_is_sum(self, w: Scale, slots: Seq<Slot>, s: int)
        requires
            w.measures(*self.ar),
            0 <= s <= slots.len(),
            crate::graph::slots_ok(slots, self.g.m_count()),
            forall|k: int| 0 <= k <= slots.len() ==> (w.fits)(#[trigger] self.used_to(slots, k)),
            forall|k: int|
                0 <= k < slots.len() ==> crate::prices::quantity_fits(
                    w,
                    *self.ar,
                    *self.g,
                    self.cheapest(#[trigger] slots[k]).0,
                    self.cheapest(slots[k]).1,
                ),
        ensures
            (w.of)(self.used_to(slots, s)) == total(s as nat, self.used_parts(w, slots)),
        decreases s,
    {
        if s == 0 {
            w.whole(*self.ar, 0);
        } else {
            self.used_is_sum(w, slots, s - 1);
            total_step(s as nat, self.used_parts(w, slots));
            let slot = slots[s - 1];
            assert(crate::graph::slot_ok(slot, self.g.m_count()));
            crate::util::cheapest_is_candidate(
                *self.ar,
                *self.g,
                self.an.cost.unit_cost@,
                Some(self.an.cost.cyclic@),
                slot.alts@,
                slot.alts@.len() as int,
            );
            assert((w.fits)(self.used_to(slots, s - 1)) && (w.fits)(self.used_to(slots, s)));
        }
    }

    /// The numbers that tell whether a recipe makes more than it takes are within
    /// range.
    pub open spec fn gain_fits(self, w: Scale, rid: RecipeId) -> bool {
        let r = self.g.recipes@[rid as int];
        let bar = self.ar.plus_spec(
            self.ar.ratio_spec(1, 1),
            self.ar.ratio_spec(1, 1_000_000_000),
        );
        &&& forall|k: int|
            0 <= k <= r.outputs@.len() ==> w.amount(#[trigger] self.given_to(r.outputs@, k))
        &&& forall|k: int|
            0 <= k < r.outputs@.len() ==> crate::prices::quantity_fits(
                w,
                *self.ar,
                *self.g,
                (#[trigger] r.outputs@[k]).alts@[0].0,
                r.outputs@[k].alts@[0].1,
            )
        &&& forall|k: int|
            0 <= k <= r.inputs@.len() ==> w.amount(#[trigger] self.used_to(r.inputs@, k))
        &&& forall|k: int|
            0 <= k < r.inputs@.len() ==> crate::prices::quantity_fits(
                w,
                *self.ar,
                *self.g,
                self.cheapest(#[trigger] r.inputs@[k]).0,
                self.cheapest(r.inputs@[k]).1,
            )
        &&& (w.of)(self.used_to(r.inputs@, r.inputs@.len() as int)) > 0
        &&& (w.fits)(self.gain(r))
        &&& (w.fits)(self.ar.ratio_spec(1, 1_000_000_000)) && (w.fits)(bar)
    }

    /// A recipe on a cycle is kept out, where that is asked for, if what it gives counts
    /// for more than what it takes, by more than a billionth. Only whole parts of the
    /// quotient count.
    pub proof fn amplifying_gives_more(self, w: Scale, rid: RecipeId)
        requires
            w.measures(*self.ar),
            self.ok(),
            rid < self.g.r_count(),
            self.gain_fits(w, rid),
            w.unit <= 1_000_000_000,
            self.opts.block_amplification,
            self.on_cycle(rid),
        ensures
            ({
                let r = self.g.recipes@[rid as int];
                let given = total(r.outputs@.len(), self.given_parts(w, r.outputs@));
                let used = total(r.inputs@.len(), self.used_parts(w, r.inputs@));
                let least = if w.unit == 1_000_000_000 {
                    w.unit + 2
                } else {
                    w.unit + 1
                };
                self.amplifies(rid) <==> given * w.unit >= used * least
            }),
    {
        let r = self.g.recipes@[rid as int];
        let n = r.outputs@.len() as int;
        let k = r.inputs@.len() as int;
        assert(crate::graph::slots_ok(r.inputs@, self.g.m_count()));
        assert(crate::graph::slots_ok(r.outputs@, self.g.m_count()));
        self.given_is_sum(w, r.outputs@, n);
        self.used_is_sum(w, r.inputs@, k);
        w.whole(*self.ar, 0);
        w.whole(*self.ar, 1);
        let given = (w.of)(self.given_to(r.outputs@, n));
        let used = (w.of)(self.used_to(r.inputs@, k));
        assert(w.amount(self.given_to(r.outputs@, n)) && w.amount(self.used_to(r.inputs@, k)));
        let x = (w.of)(self.gain(r));
        let u = w.unit;
        assert(floors(x, given * u, used));
        let tiny = (w.of)(self.ar.ratio_spec(1, 1_000_000_000));
        assert(tiny * 1_000_000_000 <= u < tiny * 1_000_000_000 + 1_000_000_000);
        let least = if u == 1_000_000_000 {
            u + 2
        } else {
            u + 1
        };
        assert(self.amplifies(rid) <==> least <= x);
        assert(least <= x <==> used * least <= given * u) by (nonlinear_arith)
            requires
                x * used <= given * u,
                given * u < x * used + used,
                used > 0,
        ;
    }

    /// A material that is reached sooner comes first; of two that are reached at once,
    /// the one whose best recipe is cheaper.
    pub proof fn nearer_comes_first(self, a: MaterialId, b: MaterialId)
        ensures
            ({
                let da = self.an.cost.depth@[a as int];
                let db = self.an.cost.depth@[b as int];
                let ra = self.ar.rank_spec(
                    self.best_to(a, self.g.producers@[a as int]@.len() as int),
                );
                let rb = self.ar.rank_spec(
                    self.best_to(b, self.g.producers@[b as int]@.len() as int),
                );
                &&& da < db && da < 0xffff ==> self.priority(a) < self.priority(b)
                &&& da == db && ra < rb ==> self.priority(a) < self.priority(b)
                &&& da == db && ra == rb ==> self.priority(a) == self.priority(b)
            }),
    {
    }

    /// The best recipe of a material is one that no allowed recipe is cheaper than.
    pub proof fn best_is_cheapest(self, m: MaterialId, i: int, k: int)
        requires
            crate::planner::neighbours::ranks(*self.ar),
            0 <= k < i <= self.g.producers@[m as int]@.len(),
            self.allowed(self.g.producers@[m as int]@[k]),
        ensures
            !self.ar.lt_spec(
                self.score(self.g.producers@[m as int]@[k], m),
                self.best_to(m, i),
            ),
        decreases i,
    {
        self.ar.total_before_orders();
        assert(self.usable(self.g.producers@[m as int]@[k]));
        if k < i - 1 {
            self.best_is_cheapest(m, i - 1, k);
        }
    }
}

/// The producers of the material were not taken in yet.
pub open spec fn waits(p: Part, m: MaterialId) -> bool {
    exists|i: int| 0 <= i < p.waiting.len() && (#[trigger] p.waiting[i]).1 == m
}

} // verus!

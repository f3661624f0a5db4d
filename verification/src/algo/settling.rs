//! How far depths and prices are settled.
use vstd::prelude::*;

use crate::algo::cost::{first_depths, lowered, sweep, sweep_to, sweeps, Allowed, Prices, Setting};
use crate::graph::KnowledgeGraph;
use crate::model::{MaterialId, RecipeNode, Slot};
use crate::program::{total, total_step};
use crate::scalar::Arithmetic;
use crate::util::{max_depth, min_depth, recipe_depth_spec};

verus! {

/// No depth is greater.
pub open spec fn no_deeper(a: Seq<u32>, b: Seq<u32>) -> bool {
    a.len() == b.len() && forall|m: int| 0 <= m < a.len() ==> #[trigger] a[m] <= b[m]
}

proof fn slots_follow(a: Seq<u32>, b: Seq<u32>, alts: Seq<(MaterialId, u64)>, i: int)
    requires
        no_deeper(a, b),
        0 <= i <= alts.len(),
        forall|k: int| 0 <= k < alts.len() ==> (#[trigger] alts[k]).0 < a.len(),
    ensures
        min_depth(a, alts, i) <= min_depth(b, alts, i),
    decreases i,
{
    if i > 0 {
        slots_follow(a, b, alts, i - 1);
        assert(alts[i - 1].0 < a.len());
    }
}

proof fn inputs_follow(a: Seq<u32>, b: Seq<u32>, slots: Seq<Slot>, s: int)
    requires
        no_deeper(a, b),
        0 <= s <= slots.len(),
        crate::graph::slots_ok(slots, a.len() as int),
    ensures
        max_depth(a, slots, s) <= max_depth(b, slots, s),
    decreases s,
{
    if s > 0 {
        inputs_follow(a, b, slots, s - 1);
        assert(crate::graph::slot_ok(slots[s - 1], a.len() as int));
        slots_follow(a, b, slots[s - 1].alts@, slots[s - 1].alts@.len() as int);
    }
}

proof fn recipes_follow(a: Seq<u32>, b: Seq<u32>, r: RecipeNode)
    requires
        no_deeper(a, b),
        crate::graph::slots_ok(r.inputs@, a.len() as int),
    ensures
        recipe_depth_spec(a, r) <= recipe_depth_spec(b, r),
{
    inputs_follow(a, b, r.inputs@, r.inputs@.len() as int);
}

/// A material is a source, or out of reach, or some recipe that can be planned with
/// makes it and is no deeper.
pub open spec fn is_reached(g: KnowledgeGraph, depth: Seq<u32>, m: MaterialId) -> bool {
    depth[m as int] == u32::MAX || g.source_spec(m) || exists|r: int|
        0 <= r < g.r_count() && #[trigger] g.plannable@[r] && g.produces(r, m) && recipe_depth_spec(
            depth,
            g.recipes@[r],
        ) <= depth[m as int]
}

/// All depths are reached.
pub open spec fn all_reached(g: KnowledgeGraph, depth: Seq<u32>) -> bool {
    depth.len() == g.m_count() && forall|m: MaterialId|
        m < g.m_count() ==> #[trigger] is_reached(g, depth, m)
}

proof fn lowering_reaches(g: KnowledgeGraph, depth: Seq<u32>, i: int)
    requires
        g.wf(),
        0 <= i < g.r_count(),
        g.plannable@[i],
        all_reached(g, depth),
    ensures
        ({
            let r = g.recipes@[i];
            all_reached(g, lowered(depth, r.outputs@, recipe_depth_spec(depth, r)))
        }),
{
    let r = g.recipes@[i];
    let d = recipe_depth_spec(depth, r);
    let now = lowered(depth, r.outputs@, d);
    assert(no_deeper(now, depth));
    assert forall|m: MaterialId| m < g.m_count() implies #[trigger] is_reached(g, now, m) by {
        assert(is_reached(g, depth, m));
        if now[m as int] == depth[m as int] {
            if depth[m as int] != u32::MAX && !g.source_spec(m) {
                let k = choose|k: int|
                    0 <= k < g.r_count() && #[trigger] g.plannable@[k] && g.produces(k, m)
                        && recipe_depth_spec(depth, g.recipes@[k]) <= depth[m as int];
                recipes_follow(now, depth, g.recipes@[k]);
                assert(g.plannable@[k]);
            }
        } else {
            assert(g.produces(i, m));
            recipes_follow(now, depth, r);
            assert(g.plannable@[i]);
        }
    }
}

proof fn sweeping_reaches(g: KnowledgeGraph, depth: Seq<u32>, i: int)
    requires
        g.wf(),
        0 <= i <= g.r_count(),
        all_reached(g, depth),
    ensures
        all_reached(g, sweep_to(g, depth, i)),
    decreases i,
{
    if i > 0 {
        sweeping_reaches(g, depth, i - 1);
        if g.plannable@[i - 1] {
            lowering_reaches(g, sweep_to(g, depth, i - 1), i - 1);
        }
    }
}

/// No depth is made up: after any number of sweeps every material that is within reach
/// is a source, or some recipe that can be planned with makes it and is no deeper.
pub proof fn depths_are_reached(g: KnowledgeGraph, depth: Seq<u32>, k: nat)
    requires
        g.wf(),
        all_reached(g, depth),
    ensures
        all_reached(g, sweeps(g, depth, k).0),
    decreases k,
{
    if k > 0 {
        sweeping_reaches(g, depth, g.r_count());
        depths_are_reached(g, sweep(g, depth), (k - 1) as nat);
    }
}

/// At first the sources are at the bottom, and nothing else is within reach.
pub proof fn sources_are_at_the_bottom(g: KnowledgeGraph)
    requires
        g.wf(),
    ensures
        all_reached(g, first_depths(g)),
        forall|m: MaterialId|
            m < g.m_count() ==> (#[trigger] g.source_spec(m) ==> first_depths(g)[m as int] == 0) && (
            !g.source_spec(m) ==> first_depths(g)[m as int] == u32::MAX),
{
    assert forall|m: MaterialId| m < g.m_count() implies #[trigger] is_reached(
        g,
        first_depths(g),
        m,
    ) by {
        assert((m as int) as u32 == m);
    }
}

impl<'a, A: Arithmetic> Setting<'a, A> {
    /// The materials of a component.
    pub open spec fn members(self, comp: u32) -> Seq<MaterialId> {
        self.cond.materials_in_comp@[comp as int]@
    }

    /// Nothing is left to settle: a material of the component is settled, or no route
    /// through what is settled leads to it.
    pub open spec fn nothing_to_settle(self, p: Prices, comp: u32, i: int) -> bool {
        let m = self.members(comp)[i];
        p.settled[m as int] || !self.route(p.costs, Allowed::Settled(p.settled), m).cost.finite_spec(
            *self.ar,
        )
    }

    spec fn sized(self, p: Prices) -> bool {
        p.settled.len() == self.g.m_count()
    }

    proof fn round_only_settles(self, p: Prices, comp: u32, i: int)
        requires
            self.sized(p),
            0 <= i <= self.members(comp).len(),
            forall|k: int|
                0 <= k < self.members(comp).len() ==> #[trigger] self.members(comp)[k]
                    < self.g.m_count(),
        ensures
            self.sized(self.round_to(p, comp, i)),
            forall|m: int|
                0 <= m < p.settled.len() && #[trigger] p.settled[m] ==> self.round_to(
                    p,
                    comp,
                    i,
                ).settled[m],
        decreases i,
    {
        if i > 0 {
            self.round_only_settles(p, comp, i - 1);
            assert(self.members(comp)[i - 1] < self.g.m_count());
        }
    }

    proof fn rounds_grow(self, p: Prices, comp: u32, i: int, j: int)
        requires
            self.sized(p),
            0 <= i <= j <= self.members(comp).len(),
            forall|k: int|
                0 <= k < self.members(comp).len() ==> #[trigger] self.members(comp)[k]
                    < self.g.m_count(),
        ensures
            forall|m: int|
                0 <= m < p.settled.len() && #[trigger] self.round_to(p, comp, i).settled[m]
                    ==> self.round_to(p, comp, j).settled[m],
        decreases j,
    {
        self.round_only_settles(p, comp, i);
        if i < j {
            self.rounds_grow(p, comp, i, j - 1);
            self.round_only_settles(p, comp, j - 1);
            assert(self.members(comp)[j - 1] < self.g.m_count());
        }
    }

    proof fn still(self, p: Prices, comp: u32, i: int)
        requires
            self.sized(p),
            0 <= i <= self.members(comp).len(),
            self.round(p, comp).settled == p.settled,
            forall|k: int|
                0 <= k < self.members(comp).len() ==> #[trigger] self.members(comp)[k]
                    < self.g.m_count(),
        ensures
            self.round_to(p, comp, i) == p,
            forall|k: int| 0 <= k < i ==> #[trigger] self.nothing_to_settle(p, comp, k),
        decreases i,
    {
        if i > 0 {
            self.still(p, comp, i - 1);
            let m = self.members(comp)[i - 1];
            assert(self.members(comp)[i - 1] < self.g.m_count());
            self.rounds_grow(p, comp, i, self.members(comp).len() as int);
            let now = self.round_to(p, comp, i);
            if !p.settled[m as int] {
                assert(!self.round(p, comp).settled[m as int]);
                assert(!now.settled[m as int]);
            }
            assert(self.nothing_to_settle(p, comp, i - 1));
        }
    }

    /// A round after which no more is settled than before leaves all as it is, and
    /// nothing is left to settle.
    pub proof fn a_still_round_is_the_last(self, p: Prices, comp: u32)
        requires
            p.settled.len() == self.g.m_count(),
            self.round(p, comp).settled == p.settled,
            forall|k: int|
                0 <= k < self.members(comp).len() ==> #[trigger] self.members(comp)[k]
                    < self.g.m_count(),
        ensures
            self.round(p, comp) == p,
            forall|k: int|
                0 <= k < self.members(comp).len() ==> #[trigger] self.nothing_to_settle(p, comp, k),
    {
        self.still(p, comp, self.members(comp).len() as int);
    }

    /// One for each material of the component that is not settled.
    pub open spec fn open_in(self, p: Prices, comp: u32) -> spec_fn(int) -> int {
        |k: int|
            if p.settled[self.members(comp)[k] as int] {
                0
            } else {
                1
            }
    }

    proof fn fewer_open(self, p: Prices, q: Prices, comp: u32, n: nat)
        requires
            n <= self.members(comp).len(),
            p.settled.len() == self.g.m_count(),
            q.settled.len() == self.g.m_count(),
            forall|k: int|
                0 <= k < self.members(comp).len() ==> #[trigger] self.members(comp)[k]
                    < self.g.m_count(),
            forall|m: int| 0 <= m < p.settled.len() && #[trigger] p.settled[m] ==> q.settled[m],
        ensures
            0 <= total(n, self.open_in(q, comp)) <= total(n, self.open_in(p, comp)),
            (exists|k: int|
                0 <= k < n && !p.settled[(#[trigger] self.members(comp)[k]) as int]
                    && q.settled[self.members(comp)[k] as int]) ==> total(n, self.open_in(q, comp))
                < total(n, self.open_in(p, comp)),
        decreases n,
    {
        if n > 0 {
            self.fewer_open(p, q, comp, (n - 1) as nat);
            total_step(n, self.open_in(p, comp));
            total_step(n, self.open_in(q, comp));
            assert(self.members(comp)[n - 1] < self.g.m_count());
        }
    }

    /// Only materials of the component are settled in a round.
    proof fn settles_members(self, p: Prices, comp: u32, i: int, m: int)
        requires
            self.sized(p),
            0 <= i <= self.members(comp).len(),
            0 <= m < self.g.m_count(),
            forall|k: int|
                0 <= k < self.members(comp).len() ==> #[trigger] self.members(comp)[k]
                    < self.g.m_count(),
            !p.settled[m],
            self.round_to(p, comp, i).settled[m],
        ensures
            exists|k: int| 0 <= k < i && #[trigger] self.members(comp)[k] == m,
        decreases i,
    {
        if i > 0 {
            self.round_only_settles(p, comp, i - 1);
            assert(self.members(comp)[i - 1] < self.g.m_count());
            if self.round_to(p, comp, i - 1).settled[m] {
                self.settles_members(p, comp, i - 1, m);
            } else {
                assert(self.members(comp)[i - 1] == m);
            }
        }
    }

    /// With more rounds than materials of the component that are not settled, nothing
    /// is left to settle: whatever can be reached from what is settled is settled.
    pub proof fn rounds_settle_all(self, p: Prices, comp: u32, k: nat)
        requires
            p.settled.len() == self.g.m_count(),
            total(self.members(comp).len(), self.open_in(p, comp)) < k,
            forall|i: int|
                0 <= i < self.members(comp).len() ==> #[trigger] self.members(comp)[i]
                    < self.g.m_count(),
        ensures
            forall|i: int|
                0 <= i < self.members(comp).len() ==> #[trigger] self.nothing_to_settle(
                    self.rounds(p, comp, k),
                    comp,
                    i,
                ),
        decreases k,
    {
        let n = self.members(comp).len();
        let q = self.round(p, comp);
        self.round_only_settles(p, comp, n as int);
        self.fewer_open(p, p, comp, n);
        if q.settled == p.settled {
            self.a_still_round_is_the_last(p, comp);
            assert(self.rounds(p, comp, k) == p);
        } else {
            let m = choose|m: int| 0 <= m < p.settled.len() && p.settled[m] != q.settled[m];
            assert(exists|m: int| 0 <= m < p.settled.len() && p.settled[m] != q.settled[m]) by {
                if forall|m: int| 0 <= m < p.settled.len() ==> p.settled[m] == q.settled[m] {
                    assert(p.settled =~= q.settled);
                }
            }
            assert(!p.settled[m] && q.settled[m]);
            self.settles_members(p, comp, n as int, m);
            let i = choose|i: int| 0 <= i < n && #[trigger] self.members(comp)[i] == m;
            assert(!p.settled[self.members(comp)[i] as int]);
            self.fewer_open(p, q, comp, n);
            self.rounds_settle_all(q, comp, (k - 1) as nat);
            assert(self.rounds(p, comp, k) == self.rounds(q, comp, (k - 1) as nat));
        }
    }
}

} // verus!

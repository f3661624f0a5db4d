//! The condensation of the production graph: each component is one node.
//!
//! A component stands for a production system that feeds itself, such as water
//! and its electrolysis. Between components there are no cycles, so costs can be
//! settled in one pass along the topological order.
use std::collections::VecDeque;

use vstd::prelude::*;

use crate::algo::scc::SccResult;
use crate::graph::KnowledgeGraph;
use crate::list::filled;
use crate::model::{MaterialId, RecipeId, Slot};
use crate::order::sort_dedup_wide;

verus! {

/// The condensed graph.
pub struct Condensation {
    pub comp_count: usize,
    /// Component of each material.
    pub comp_of_material: Vec<u32>,
    /// Component of each recipe.
    pub comp_of_recipe: Vec<u32>,
    /// Materials of each component.
    pub materials_in_comp: Vec<Vec<MaterialId>>,
    /// Recipes of each component.
    pub recipes_in_comp: Vec<Vec<RecipeId>>,
    /// All components, those that others depend on first.
    pub topo_order: Vec<u32>,
    /// Components that consume what a component makes.
    pub comp_downstream: Vec<Vec<u32>>,
    /// Components that make what a component consumes.
    pub comp_upstream: Vec<Vec<u32>>,
    /// Whether a component has more than one node.
    pub cyclic: Vec<bool>,
}

/// The components fit the graph.
pub open spec fn scc_fits(g: KnowledgeGraph, scc: SccResult) -> bool {
    &&& scc.comp@.len() == g.m_count() + g.r_count()
    &&& scc.sizes@.len() <= g.m_count() + g.r_count()
    &&& forall|v: int| 0 <= v < scc.comp@.len() ==> #[trigger] scc.comp@[v] < scc.sizes@.len()
}

/// The components are those of the production graph.
pub open spec fn scc_of(g: KnowledgeGraph, scc: SccResult) -> bool {
    exists|adj: Seq<Vec<u32>>| #[trigger]
        crate::algo::scc::production_edges(g, adj) && crate::algo::scc::splits(
            adj,
            g.m_count() + g.r_count(),
            scc,
        )
}

/// Some candidate of the slots is a material of component `c`.
pub open spec fn touches(slots: Seq<Slot>, comp_of: Seq<u32>, c: u32) -> bool {
    exists|m: MaterialId| #[trigger]
        crate::graph::mentions(slots, m) && comp_of[m as int] == c
}

/// Some recipe that can be planned with consumes a material of component `a`
/// and produces one of another component `b`.
pub open spec fn feeds(g: KnowledgeGraph, comp_of: Seq<u32>, a: u32, b: u32) -> bool {
    a != b && exists|r: int| #[trigger] feeds_by(g, comp_of, a, b, r)
}

pub open spec fn feeds_by(g: KnowledgeGraph, comp_of: Seq<u32>, a: u32, b: u32, r: int) -> bool {
    &&& 0 <= r < g.r_count()
    &&& g.plannable@[r]
    &&& touches(g.recipes@[r].inputs@, comp_of, a)
    &&& touches(g.recipes@[r].outputs@, comp_of, b)
}

/// `order` names each number below `k` once.
pub open spec fn names_each(order: Seq<u32>, k: int) -> bool {
    &&& order.no_duplicates()
    &&& forall|c: u32| #[trigger] order.contains(c) <==> c < k
}

/// The positions that hold `c`.
pub open spec fn within(of: Seq<u32>, c: int) -> spec_fn(int) -> bool {
    |i: int| of[i] == c
}

/// In `order`, `a` comes before `b`.
pub open spec fn precedes(order: Seq<u32>, a: u32, b: u32) -> bool {
    exists|i: int, j: int|
        0 <= i < j < order.len() && #[trigger] order[i] == a && #[trigger] order[j] == b
}

/// The numbers below `c` that nothing leads to, in ascending order.
pub open spec fn unfed_to(up: Seq<Vec<u32>>, c: int) -> Seq<u32>
    decreases c,
{
    if c <= 0 {
        Seq::empty()
    } else if up[c - 1]@.len() == 0 {
        unfed_to(up, c - 1).push((c - 1) as u32)
    } else {
        unfed_to(up, c - 1)
    }
}

/// All that leads to `d` is listed.
pub open spec fn all_fed(up: Seq<Vec<u32>>, order: Seq<u32>, d: int) -> bool {
    forall|i: int| 0 <= i < up[d]@.len() ==> order.contains(#[trigger] up[d]@[i])
}

/// Those of the first `i` numbers of `outs` all of whose sources are listed.
pub open spec fn freed_to(up: Seq<Vec<u32>>, order: Seq<u32>, outs: Seq<u32>, i: int) -> Seq<u32>
    decreases i,
{
    if i <= 0 {
        Seq::empty()
    } else if all_fed(up, order, outs[i - 1] as int) {
        freed_to(up, order, outs, i - 1).push(outs[i - 1])
    } else {
        freed_to(up, order, outs, i - 1)
    }
}

/// The numbers below `c` that `order` lacks, in ascending order.
pub open spec fn lacked_to(order: Seq<u32>, c: int) -> Seq<u32>
    decreases c,
{
    if c <= 0 {
        Seq::empty()
    } else if order.contains((c - 1) as u32) {
        lacked_to(order, c - 1)
    } else {
        lacked_to(order, c - 1).push((c - 1) as u32)
    }
}

/// Numbers that are listed first come, first served, on their way.
pub struct Line {
    pub order: Seq<u32>,
    /// The numbers that wait.
    pub queue: Seq<u32>,
}

impl Line {
    /// What nothing leads to waits first, in ascending order.
    pub open spec fn start(up: Seq<Vec<u32>>, k: int) -> Line {
        Line { order: Seq::empty(), queue: unfed_to(up, k) }
    }

    /// The first that waits is listed. What it leads to joins the line, in its
    /// order, as far as nothing more is missing for it.
    pub open spec fn step(self, down: Seq<Vec<u32>>, up: Seq<Vec<u32>>) -> Line {
        if self.queue.len() == 0 {
            self
        } else {
            let c = self.queue[0];
            let order = self.order.push(c);
            let outs = down[c as int]@;
            Line {
                order,
                queue: self.queue.drop_first() + freed_to(up, order, outs, outs.len() as int),
            }
        }
    }

    /// The line after `n` steps.
    pub open spec fn after(down: Seq<Vec<u32>>, up: Seq<Vec<u32>>, k: int, n: nat) -> Line
        decreases n,
    {
        if n == 0 {
            Line::start(up, k)
        } else {
            Line::after(down, up, k, (n - 1) as nat).step(down, up)
        }
    }

    /// A line in which nobody waits stays as it is, so that it has one end.
    pub proof fn one_end(down: Seq<Vec<u32>>, up: Seq<Vec<u32>>, k: int, m: nat, n: nat)
        requires
            m <= n,
            Line::after(down, up, k, m).queue.len() == 0,
        ensures
            Line::after(down, up, k, n) == Line::after(down, up, k, m),
        decreases n,
    {
        if m < n {
            Line::one_end(down, up, k, m, (n - 1) as nat);
        }
    }
}

/// `order` lists the numbers below `k` first come, first served; what never gets
/// its turn comes last, in ascending order.
pub open spec fn first_come(down: Seq<Vec<u32>>, up: Seq<Vec<u32>>, k: int, order: Seq<u32>) -> bool {
    exists|n: nat|
        (#[trigger] Line::after(down, up, k, n)).queue.len() == 0 && order == Line::after(
            down,
            up,
            k,
            n,
        ).order + lacked_to(Line::after(down, up, k, n).order, k)
}

/// There is one such order.
pub proof fn first_come_once(
    down: Seq<Vec<u32>>,
    up: Seq<Vec<u32>>,
    k: int,
    a: Seq<u32>,
    b: Seq<u32>,
)
    requires
        first_come(down, up, k, a),
        first_come(down, up, k, b),
    ensures
        a == b,
{
    let m = choose|m: nat|
        (#[trigger] Line::after(down, up, k, m)).queue.len() == 0 && a == Line::after(
            down,
            up,
            k,
            m,
        ).order + lacked_to(Line::after(down, up, k, m).order, k);
    let n = choose|n: nat|
        (#[trigger] Line::after(down, up, k, n)).queue.len() == 0 && b == Line::after(
            down,
            up,
            k,
            n,
        ).order + lacked_to(Line::after(down, up, k, n).order, k);
    if m <= n {
        Line::one_end(down, up, k, m, n);
    } else {
        Line::one_end(down, up, k, n, m);
    }
}

impl Condensation {
    /// The condensation puts the materials and recipes of the graph into their
    /// components.
    pub open spec fn fits(self, g: KnowledgeGraph) -> bool {
        &&& self.comp_count <= u32::MAX
        &&& self.comp_of_material@.len() == g.m_count()
        &&& self.comp_of_recipe@.len() == g.r_count()
        &&& self.materials_in_comp@.len() == self.comp_count
        &&& self.recipes_in_comp@.len() == self.comp_count
        &&& self.cyclic@.len() == self.comp_count
        &&& self.comp_downstream@.len() == self.comp_count
        &&& self.comp_upstream@.len() == self.comp_count
        &&& forall|m: int|
            0 <= m < g.m_count() ==> #[trigger] self.comp_of_material@[m] < self.comp_count
        &&& forall|r: int|
            0 <= r < g.r_count() ==> #[trigger] self.comp_of_recipe@[r] < self.comp_count
        &&& forall|c: int|
            0 <= c < self.comp_count ==> crate::graph::lists(
                (#[trigger] self.materials_in_comp@[c])@,
                g.m_count(),
                within(self.comp_of_material@, c),
            )
        &&& forall|c: int|
            0 <= c < self.comp_count ==> crate::graph::lists(
                (#[trigger] self.recipes_in_comp@[c])@,
                g.r_count(),
                within(self.comp_of_recipe@, c),
            )
        &&& names_each(self.topo_order@, self.comp_count as int)
    }

    /// The materials of a component are materials of the graph, and of that
    /// component.
    pub proof fn member(self, g: KnowledgeGraph, c: int, i: int)
        requires
            self.fits(g),
            0 <= c < self.comp_count,
            0 <= i < self.materials_in_comp@[c]@.len(),
        ensures
            self.materials_in_comp@[c]@[i] < g.m_count(),
            self.comp_of_material@[self.materials_in_comp@[c]@[i] as int] == c,
    {
    }

    /// A material is among the materials of its component.
    pub proof fn listed(self, g: KnowledgeGraph, c: int, x: MaterialId)
        requires
            self.fits(g),
            x < g.m_count(),
            self.comp_of_material@[x as int] == c,
        ensures
            self.materials_in_comp@[c]@.contains(x),
    {
        let f = within(self.comp_of_material@, c);
        assert(crate::graph::lists(self.materials_in_comp@[c]@, g.m_count(), f));
        assert(f(x as int));
        assert(self.materials_in_comp@[c]@.contains(x as int as u32));
    }

    /// The edges between components say who feeds whom.
    pub open spec fn connects(self, g: KnowledgeGraph) -> bool {
        &&& forall|c: int|
            0 <= c < self.comp_count ==> crate::graph::lists(
                (#[trigger] self.comp_downstream@[c])@,
                self.comp_count as int,
                |d: int| feeds(g, self.comp_of_material@, c as u32, d as u32),
            )
        &&& forall|c: int|
            0 <= c < self.comp_count ==> crate::graph::lists(
                (#[trigger] self.comp_upstream@[c])@,
                self.comp_count as int,
                |d: int| feeds(g, self.comp_of_material@, d as u32, c as u32),
            )
    }
}

/// The components of the materials that the slots mention.
fn touched(slots: &Vec<Slot>, comp_of: &Vec<u32>, n: usize) -> (out: Vec<u32>)
    requires
        crate::graph::slots_ok(slots@, n as int),
        comp_of@.len() == n,
    ensures
        forall|c: u32| #[trigger] out@.contains(c) <==> touches(slots@, comp_of@, c),
{
    let mut out: Vec<u32> = Vec::new();
    let mut s: usize = 0;
    while s < slots.len()
        invariant
            s <= slots@.len(),
            comp_of@.len() == n,
            crate::graph::slots_ok(slots@, n as int),
            forall|a: int|
                0 <= a < out@.len() ==> touches(slots@, comp_of@, #[trigger] out@[a]),
            forall|t: int, a: int|
                0 <= t < s && 0 <= a < slots@[t].alts@.len() ==> out@.contains(
                    comp_of@[(#[trigger] slots@[t].alts@[a]).0 as int],
                ),
        decreases slots@.len() - s,
    {
        let alts = &slots[s].alts;
        assert(crate::graph::slot_ok(slots@[s as int], n as int));
        let mut a: usize = 0;
        while a < alts.len()
            invariant
                s < slots@.len(),
                comp_of@.len() == n,
                alts@ == slots@[s as int].alts@,
                a <= alts@.len(),
                crate::graph::slot_ok(slots@[s as int], n as int),
                forall|a: int|
                    0 <= a < out@.len() ==> touches(slots@, comp_of@, #[trigger] out@[a]),
                forall|t: int, b: int|
                    (0 <= t < s && 0 <= b < slots@[t].alts@.len()) || (t == s && 0 <= b < a)
                        ==> out@.contains(comp_of@[(#[trigger] slots@[t].alts@[b]).0 as int]),
            decreases alts@.len() - a,
        {
            let ghost out0 = out@;
            let x: u32 = alts[a].0;
            assert(crate::graph::mentions_at(slots@, x, s as int, a as int));
            assert(crate::graph::mentions(slots@, x));
            out.push(comp_of[x as usize]);
            assert(out@.last() == comp_of@[x as int]);
            assert forall|t: int, b: int|
                (0 <= t < s && 0 <= b < slots@[t].alts@.len()) || (t == s && 0 <= b < a
                    + 1) implies out@.contains(comp_of@[(#[trigger] slots@[t].alts@[b]).0 as int]) by {
                if !(t == s && b == a) {
                    let y = comp_of@[slots@[t].alts@[b].0 as int];
                    assert(out0.contains(y));
                    let j = choose|j: int| 0 <= j < out0.len() && out0[j] == y;
                    assert(out@[j] == out0[j]);
                }
            }
            a += 1;
        }
        s += 1;
    }
    assert forall|c: u32| #[trigger] out@.contains(c) <==> touches(slots@, comp_of@, c) by {
        if touches(slots@, comp_of@, c) {
            let m = choose|m: MaterialId| #[trigger]
                crate::graph::mentions(slots@, m) && comp_of@[m as int] == c;
            let (t, a) = choose|t: int, a: int| #[trigger]
                crate::graph::mentions_at(slots@, m, t, a);
            assert(out@.contains(comp_of@[slots@[t].alts@[a].0 as int]));
        }
    }
    out
}

/// Two components as one number.
spec fn code(a: u32, b: u32) -> int {
    a * 0x1_0000_0000 + b
}

fn pair_code(a: u32, b: u32) -> (r: u64)
    ensures
        r == code(a, b),
{
    a as u64 * 0x1_0000_0000 + b as u64
}

/// The codes of the pairs of components of which the first feeds the second by
/// one recipe.
fn pairs_of(ins: &Vec<u32>, outs: &Vec<u32>, pairs: &mut Vec<u64>)
    ensures
        forall|p: u64| #[trigger]
            final(pairs)@.contains(p) <==> old(pairs)@.contains(p) || exists|a: u32, b: u32|
                p == #[trigger] code(a, b) && a != b && ins@.contains(a) && outs@.contains(b),
{
    let ghost start = pairs@;
    let mut i: usize = 0;
    while i < ins.len()
        invariant
            i <= ins@.len(),
            forall|p: u64| #[trigger]
                pairs@.contains(p) <==> start.contains(p) || exists|x: int, y: int|
                    0 <= x < i && 0 <= y < outs@.len() && ins@[x] != outs@[y] && p == #[trigger] code(
                        ins@[x],
                        outs@[y],
                    ),
        decreases ins@.len() - i,
    {
        let a: u32 = ins[i];
        let mut j: usize = 0;
        while j < outs.len()
            invariant
                i < ins@.len(),
                a == ins@[i as int],
                j <= outs@.len(),
                forall|p: u64| #[trigger]
                    pairs@.contains(p) <==> start.contains(p) || exists|x: int, y: int|
                        ((0 <= x < i && 0 <= y < outs@.len()) || (x == i && 0 <= y < j)) && ins@[x]
                            != outs@[y] && p == #[trigger] code(ins@[x], outs@[y]),
            decreases outs@.len() - j,
        {
            let b: u32 = outs[j];
            let ghost pairs0 = pairs@;
            if a != b {
                let c: u64 = pair_code(a, b);
                pairs.push(c);
                assert(pairs@.last() == c);
                assert forall|p: u64| #[trigger] pairs@.contains(p) <==> pairs0.contains(p) || p
                    == c by {
                    if pairs0.contains(p) {
                        let k = choose|k: int| 0 <= k < pairs0.len() && pairs0[k] == p;
                        assert(pairs@[k] == p);
                    }
                }
            }
            assert forall|p: u64| #[trigger] pairs@.contains(p) <==> start.contains(p) || exists|
                x: int,
                y: int,
            |
                ((0 <= x < i && 0 <= y < outs@.len()) || (x == i && 0 <= y < j + 1)) && ins@[x]
                    != outs@[y] && p == #[trigger] code(ins@[x], outs@[y]) by {
                if pairs0.contains(p) && !start.contains(p) {
                    let (x, y) = choose|x: int, y: int|
                        ((0 <= x < i && 0 <= y < outs@.len()) || (x == i && 0 <= y < j)) && ins@[x]
                            != outs@[y] && p == #[trigger] code(ins@[x], outs@[y]);
                    assert(p == code(ins@[x], outs@[y]));
                }
                if a != b && p == code(a, b) {
                    assert(p == code(ins@[i as int], outs@[j as int]));
                }
                if exists|x: int, y: int|
                    ((0 <= x < i && 0 <= y < outs@.len()) || (x == i && 0 <= y < j + 1)) && ins@[x]
                        != outs@[y] && p == #[trigger] code(ins@[x], outs@[y]) {
                    let (x, y) = choose|x: int, y: int|
                        ((0 <= x < i && 0 <= y < outs@.len()) || (x == i && 0 <= y < j + 1))
                            && ins@[x] != outs@[y] && p == #[trigger] code(ins@[x], outs@[y]);
                    if !(x == i && y == j) {
                        assert(p == code(ins@[x], outs@[y]));
                        assert(pairs0.contains(p));
                    }
                }
            }
            j += 1;
        }
        i += 1;
    }
    assert forall|p: u64| #[trigger] pairs@.contains(p) <==> start.contains(p) || exists|
        a: u32,
        b: u32,
    | p == #[trigger] code(a, b) && a != b && ins@.contains(a) && outs@.contains(b) by {
        if pairs@.contains(p) && !start.contains(p) {
            let (x, y) = choose|x: int, y: int|
                0 <= x < i && 0 <= y < outs@.len() && ins@[x] != outs@[y] && p == #[trigger] code(
                    ins@[x],
                    outs@[y],
                );
            assert(ins@.contains(ins@[x]) && outs@.contains(outs@[y]));
        }
        if exists|a: u32, b: u32|
            p == #[trigger] code(a, b) && a != b && ins@.contains(a) && outs@.contains(b) {
            let (a, b) = choose|a: u32, b: u32|
                p == #[trigger] code(a, b) && a != b && ins@.contains(a) && outs@.contains(b);
            let x = choose|x: int| 0 <= x < ins@.len() && ins@[x] == a;
            let y = choose|y: int| 0 <= y < outs@.len() && outs@[y] == b;
            assert(p == code(ins@[x], outs@[y]));
        }
    }
}

/// `p` is the code of two components of which the first feeds the second.
spec fn fed(g: KnowledgeGraph, comp_of: Seq<u32>, p: u64) -> bool {
    feeds(g, comp_of, (p / 0x1_0000_0000) as u32, (p % 0x1_0000_0000) as u32)
}

/// The codes of all pairs of components of which the first feeds the second, in
/// ascending order.
fn feeding_pairs(g: &KnowledgeGraph, comp_of: &Vec<u32>) -> (r: Vec<u64>)
    requires
        g.wf(),
        comp_of@.len() == g.m_count(),
    ensures
        forall|a: int, b: int| 0 <= a < b < r@.len() ==> #[trigger] r@[a] < #[trigger] r@[b],
        forall|p: u64| #[trigger] r@.contains(p) <==> fed(*g, comp_of@, p),
{
    let n: usize = g.materials.len();
    let mut pairs: Vec<u64> = Vec::new();
    let mut r: usize = 0;
    while r < g.recipes.len()
        invariant
            r <= g.recipes@.len(),
            g.wf(),
            n == g.m_count(),
            comp_of@.len() == n,
            forall|p: u64| #[trigger]
                pairs@.contains(p) <==> exists|k: int, a: u32, b: u32|
                    #![trigger feeds_by(*g, comp_of@, a, b, k)]
                    k < r && feeds_by(*g, comp_of@, a, b, k) && a != b && p == code(a, b),
        decreases g.recipes@.len() - r,
    {
        let node = &g.recipes[r];
        let ghost pairs0 = pairs@;
        if g.is_plannable(r as u32) {
            let ins = touched(&node.inputs, comp_of, n);
            let outs = touched(&node.outputs, comp_of, n);
            pairs_of(&ins, &outs, &mut pairs);
            assert forall|p: u64| #[trigger] pairs@.contains(p) <==> exists|k: int, a: u32, b: u32|
                #![trigger feeds_by(*g, comp_of@, a, b, k)]
                k < r + 1 && feeds_by(*g, comp_of@, a, b, k) && a != b && p == code(a, b) by {
                if pairs@.contains(p) {
                    if pairs0.contains(p) {
                        let (k, a, b) = choose|k: int, a: u32, b: u32|
                            #![trigger feeds_by(*g, comp_of@, a, b, k)]
                            k < r && feeds_by(*g, comp_of@, a, b, k) && a != b && p == code(a, b);
                        assert(feeds_by(*g, comp_of@, a, b, k));
                    } else {
                        let (a, b) = choose|a: u32, b: u32|
                            p == #[trigger] code(a, b) && a != b && ins@.contains(a)
                                && outs@.contains(b);
                        assert(feeds_by(*g, comp_of@, a, b, r as int));
                    }
                }
                if exists|k: int, a: u32, b: u32|
                    #![trigger feeds_by(*g, comp_of@, a, b, k)]
                    k < r + 1 && feeds_by(*g, comp_of@, a, b, k) && a != b && p == code(a, b) {
                    let (k, a, b) = choose|k: int, a: u32, b: u32|
                        #![trigger feeds_by(*g, comp_of@, a, b, k)]
                        k < r + 1 && feeds_by(*g, comp_of@, a, b, k) && a != b && p == code(a, b);
                    if k < r {
                        assert(feeds_by(*g, comp_of@, a, b, k));
                        assert(pairs0.contains(p));
                    } else {
                        assert(ins@.contains(a) && outs@.contains(b));
                        assert(p == code(a, b));
                    }
                }
            }
        } else {
            assert forall|p: u64| #[trigger] pairs@.contains(p) <==> exists|k: int, a: u32, b: u32|
                #![trigger feeds_by(*g, comp_of@, a, b, k)]
                k < r + 1 && feeds_by(*g, comp_of@, a, b, k) && a != b && p == code(a, b) by {
                if pairs@.contains(p) {
                    let (k, a, b) = choose|k: int, a: u32, b: u32|
                        #![trigger feeds_by(*g, comp_of@, a, b, k)]
                        k < r && feeds_by(*g, comp_of@, a, b, k) && a != b && p == code(a, b);
                    assert(feeds_by(*g, comp_of@, a, b, k));
                }
                if exists|k: int, a: u32, b: u32|
                    #![trigger feeds_by(*g, comp_of@, a, b, k)]
                    k < r + 1 && feeds_by(*g, comp_of@, a, b, k) && a != b && p == code(a, b) {
                    let (k, a, b) = choose|k: int, a: u32, b: u32|
                        #![trigger feeds_by(*g, comp_of@, a, b, k)]
                        k < r + 1 && feeds_by(*g, comp_of@, a, b, k) && a != b && p == code(a, b);
                    assert(k < r);
                    assert(feeds_by(*g, comp_of@, a, b, k));
                }
            }
        }
        r += 1;
    }
    let out = sort_dedup_wide(&pairs);
    assert forall|p: u64| #[trigger] out@.contains(p) <==> fed(*g, comp_of@, p) by {
        assert(out@.contains(p) <==> pairs@.contains(p));
        let a = (p / 0x1_0000_0000) as u32;
        let b = (p % 0x1_0000_0000) as u32;
        assert(p == code(a, b));
        if pairs@.contains(p) {
            let (k, x, y) = choose|k: int, x: u32, y: u32|
                #![trigger feeds_by(*g, comp_of@, x, y, k)]
                k < r && feeds_by(*g, comp_of@, x, y, k) && x != y && p == code(x, y);
            assert(x == a && y == b);
            assert(feeds_by(*g, comp_of@, a, b, k));
        }
        if feeds(*g, comp_of@, a, b) {
            let k = choose|k: int| #[trigger] feeds_by(*g, comp_of@, a, b, k);
            assert(feeds_by(*g, comp_of@, a, b, k));
        }
    }
    out
}

/// The positions of each value: `r[c]` lists the positions of `of` that hold `c`.
fn grouped(of: &Vec<u32>, k: usize) -> (r: Vec<Vec<u32>>)
    requires
        of@.len() <= u32::MAX,
        forall|i: int| 0 <= i < of@.len() ==> #[trigger] of@[i] < k,
    ensures
        r@.len() == k,
        forall|c: int|
            0 <= c < k ==> crate::graph::lists(
                (#[trigger] r@[c])@,
                of@.len() as int,
                within(of@, c),
            ),
{
    let mut r: Vec<Vec<u32>> = empty_lists(k);
    let mut i: usize = 0;
    while i < of.len()
        invariant
            i <= of@.len() <= u32::MAX,
            forall|i: int| 0 <= i < of@.len() ==> #[trigger] of@[i] < k,
            r@.len() == k,
            forall|c: int|
                0 <= c < k ==> crate::graph::lists(
                    (#[trigger] r@[c])@,
                    i as int,
                    within(of@, c),
                ),
        decreases of@.len() - i,
    {
        let c: usize = of[i] as usize;
        let ghost r0 = r@;
        r[c].push(i as u32);
        assert forall|d: int| 0 <= d < k implies crate::graph::lists(
            (#[trigger] r@[d])@,
            i + 1,
            within(of@, d),
        ) by {
            let p = within(of@, d);
            assert(crate::graph::lists(r0[d]@, i as int, p));
            assert forall|x: int| 0 <= x < i + 1 && #[trigger] p(x) implies r@[d]@.contains(
                x as u32,
            ) by {
                if x < i {
                    assert(r0[d]@.contains(x as u32));
                    let j = choose|j: int| 0 <= j < r0[d]@.len() && r0[d]@[j] == x as u32;
                    assert(r@[d]@[j] == x as u32);
                } else {
                    assert(d == c);
                    assert(r@[d]@.last() == i as u32);
                }
            }
            assert forall|a: int| 0 <= a < r@[d]@.len() implies #[trigger] r@[d]@[a] < i + 1 && p(
                r@[d]@[a] as int,
            ) by {
                if a < r0[d]@.len() {
                    assert(p(r0[d]@[a] as int));
                }
            }
        }
        i += 1;
    }
    r
}

/// `k` empty lists.
fn empty_lists(k: usize) -> (r: Vec<Vec<u32>>)
    ensures
        r@.len() == k,
        forall|c: int| 0 <= c < k ==> (#[trigger] r@[c])@.len() == 0,
{
    let mut r: Vec<Vec<u32>> = Vec::new();
    let mut i: usize = 0;
    while i < k
        invariant
            i <= k,
            r@.len() == i,
            forall|c: int| 0 <= c < i ==> (#[trigger] r@[c])@.len() == 0,
        decreases k - i,
    {
        r.push(Vec::new());
        i += 1;
    }
    r
}

spec fn from(p: u64) -> u32 {
    (p / 0x1_0000_0000) as u32
}

spec fn to(p: u64) -> u32 {
    (p % 0x1_0000_0000) as u32
}

/// `list` holds, ascending, the `to` (or the `from`) of the first `i` pairs with
/// the given other end.
spec fn ends(list: Seq<u32>, pairs: Seq<u64>, i: int, c: u32, down: bool) -> bool {
    &&& forall|a: int, b: int| 0 <= a < b < list.len() ==> #[trigger] list[a] < #[trigger] list[b]
    &&& forall|a: int|
        0 <= a < list.len() ==> exists|j: int|
            0 <= j < i && end_is(#[trigger] pairs[j], c, #[trigger] list[a], down)
    &&& forall|j: int|
        0 <= j < i && (if down { from(#[trigger] pairs[j]) } else { to(pairs[j]) }) == c
            ==> list.contains(if down { to(pairs[j]) } else { from(pairs[j]) })
}

spec fn end_is(p: u64, c: u32, d: u32, down: bool) -> bool {
    if down {
        from(p) == c && to(p) == d
    } else {
        to(p) == c && from(p) == d
    }
}

proof fn ends_push(list: Seq<u32>, pairs: Seq<u64>, i: int, c: u32, down: bool)
    requires
        0 <= i < pairs.len(),
        forall|a: int, b: int|
            0 <= a < b < pairs.len() ==> #[trigger] pairs[a] < #[trigger] pairs[b],
        ends(list, pairs, i, c, down),
    ensures
        (if down { from(pairs[i]) } else { to(pairs[i]) }) != c ==> ends(
            list,
            pairs,
            i + 1,
            c,
            down,
        ),
        (if down { from(pairs[i]) } else { to(pairs[i]) }) == c ==> ends(
            list.push(if down { to(pairs[i]) } else { from(pairs[i]) }),
            pairs,
            i + 1,
            c,
            down,
        ),
{
    let x = if down { to(pairs[i]) } else { from(pairs[i]) };
    if (if down { from(pairs[i]) } else { to(pairs[i]) }) == c {
        let more = list.push(x);
        assert forall|a: int, b: int| 0 <= a < b < more.len() implies #[trigger] more[a]
            < #[trigger] more[b] by {
            if b == list.len() {
                let j = choose|j: int|
                    0 <= j < i && end_is(#[trigger] pairs[j], c, #[trigger] list[a], down);
                assert(pairs[j] < pairs[i]);
            }
        }
        assert forall|a: int| 0 <= a < more.len() implies exists|j: int|
            0 <= j < i + 1 && end_is(#[trigger] pairs[j], c, #[trigger] more[a], down) by {
            if a < list.len() {
                let j = choose|j: int|
                    0 <= j < i && end_is(#[trigger] pairs[j], c, #[trigger] list[a], down);
                assert(end_is(pairs[j], c, more[a], down));
            } else {
                assert(end_is(pairs[i], c, more[a], down));
            }
        }
        assert forall|j: int|
            0 <= j < i + 1 && (if down { from(#[trigger] pairs[j]) } else { to(pairs[j]) })
                == c implies more.contains(if down { to(pairs[j]) } else { from(pairs[j]) }) by {
            if j < i {
                let y = if down { to(pairs[j]) } else { from(pairs[j]) };
                assert(list.contains(y));
                let k = choose|k: int| 0 <= k < list.len() && list[k] == y;
                assert(more[k] == y);
            } else {
                assert(more.last() == x);
            }
        }
    } else {
        assert forall|a: int| 0 <= a < list.len() implies exists|j: int|
            0 <= j < i + 1 && end_is(#[trigger] pairs[j], c, #[trigger] list[a], down) by {
            let j = choose|j: int|
                0 <= j < i && end_is(#[trigger] pairs[j], c, #[trigger] list[a], down);
            assert(end_is(pairs[j], c, list[a], down));
        }
    }
}

/// The edges between components, downstream and upstream.
fn edges_of(g: &KnowledgeGraph, comp_of: &Vec<u32>, k: usize) -> (r: (Vec<Vec<u32>>, Vec<Vec<u32>>))
    requires
        g.wf(),
        comp_of@.len() == g.m_count(),
        k <= u32::MAX,
        forall|m: int| 0 <= m < comp_of@.len() ==> #[trigger] comp_of@[m] < k,
    ensures
        r.0@.len() == k,
        r.1@.len() == k,
        forall|c: int|
            0 <= c < k ==> crate::graph::lists(
                (#[trigger] r.0@[c])@,
                k as int,
                |d: int| feeds(*g, comp_of@, c as u32, d as u32),
            ),
        forall|c: int|
            0 <= c < k ==> crate::graph::lists(
                (#[trigger] r.1@[c])@,
                k as int,
                |d: int| feeds(*g, comp_of@, d as u32, c as u32),
            ),
{
    let pairs = feeding_pairs(g, comp_of);
    let mut down = empty_lists(k);
    let mut up = empty_lists(k);
    let mut i: usize = 0;
    assert forall|j: int| 0 <= j < pairs@.len() implies from(#[trigger] pairs@[j]) < k && to(
        pairs@[j],
    ) < k by {
        assert(pairs@.contains(pairs@[j]));
        assert(fed(*g, comp_of@, pairs@[j]));
        feeds_below(*g, comp_of@, k as int, from(pairs@[j]), to(pairs@[j]));
    }
    while i < pairs.len()
        invariant
            i <= pairs@.len(),
            down@.len() == k,
            up@.len() == k,
            k <= u32::MAX,
            forall|a: int, b: int|
                0 <= a < b < pairs@.len() ==> #[trigger] pairs@[a] < #[trigger] pairs@[b],
            forall|j: int|
                0 <= j < pairs@.len() ==> from(#[trigger] pairs@[j]) < k && to(pairs@[j]) < k,
            forall|c: int|
                0 <= c < k ==> ends((#[trigger] down@[c])@, pairs@, i as int, c as u32, true),
            forall|c: int|
                0 <= c < k ==> ends((#[trigger] up@[c])@, pairs@, i as int, c as u32, false),
        decreases pairs@.len() - i,
    {
        let p: u64 = pairs[i];
        let a: u32 = (p / 0x1_0000_0000) as u32;
        let b: u32 = (p % 0x1_0000_0000) as u32;
        assert(a == from(p) && b == to(p));
        let ghost down0 = down@;
        let ghost up0 = up@;
        down[a as usize].push(b);
        up[b as usize].push(a);
        assert forall|c: int| 0 <= c < k implies ends(
            (#[trigger] down@[c])@,
            pairs@,
            i + 1,
            c as u32,
            true,
        ) by {
            ends_push(down0[c]@, pairs@, i as int, c as u32, true);
        }
        assert forall|c: int| 0 <= c < k implies ends(
            (#[trigger] up@[c])@,
            pairs@,
            i + 1,
            c as u32,
            false,
        ) by {
            ends_push(up0[c]@, pairs@, i as int, c as u32, false);
        }
        i += 1;
    }
    assert forall|c: int| 0 <= c < k implies crate::graph::lists(
        (#[trigger] down@[c])@,
        k as int,
        |d: int| feeds(*g, comp_of@, c as u32, d as u32),
    ) by {
        let q = |d: int| feeds(*g, comp_of@, c as u32, d as u32);
        let list = down@[c]@;
        assert forall|a: int| 0 <= a < list.len() implies #[trigger] list[a] < k && q(
            list[a] as int,
        ) by {
            let j = choose|j: int|
                0 <= j < i && end_is(#[trigger] pairs@[j], c as u32, #[trigger] list[a], true);
            assert(pairs@.contains(pairs@[j]));
            assert(fed(*g, comp_of@, pairs@[j]));
        }
        assert forall|x: int| 0 <= x < k && #[trigger] q(x) implies list.contains(x as u32) by {
            let p = code(c as u32, x as u32) as u64;
            assert(from(p) == c && to(p) == x);
            assert(fed(*g, comp_of@, p));
            assert(pairs@.contains(p));
            let j = choose|j: int| 0 <= j < pairs@.len() && pairs@[j] == p;
            assert(from(pairs@[j]) == c);
        }
    }
    assert forall|c: int| 0 <= c < k implies crate::graph::lists(
        (#[trigger] up@[c])@,
        k as int,
        |d: int| feeds(*g, comp_of@, d as u32, c as u32),
    ) by {
        let q = |d: int| feeds(*g, comp_of@, d as u32, c as u32);
        let list = up@[c]@;
        assert forall|a: int| 0 <= a < list.len() implies #[trigger] list[a] < k && q(
            list[a] as int,
        ) by {
            let j = choose|j: int|
                0 <= j < i && end_is(#[trigger] pairs@[j], c as u32, #[trigger] list[a], false);
            assert(pairs@.contains(pairs@[j]));
            assert(fed(*g, comp_of@, pairs@[j]));
        }
        assert forall|x: int| 0 <= x < k && #[trigger] q(x) implies list.contains(x as u32) by {
            let p = code(x as u32, c as u32) as u64;
            assert(from(p) == x && to(p) == c);
            assert(fed(*g, comp_of@, p));
            assert(pairs@.contains(p));
            let j = choose|j: int| 0 <= j < pairs@.len() && pairs@[j] == p;
            assert(from(pairs@[j]) == x);
        }
    }
    (down, up)
}

proof fn feeds_below(g: KnowledgeGraph, comp_of: Seq<u32>, k: int, a: u32, b: u32)
    requires
        g.wf(),
        comp_of.len() == g.m_count(),
        forall|m: int| 0 <= m < comp_of.len() ==> #[trigger] comp_of[m] < k,
        feeds(g, comp_of, a, b),
    ensures
        a < k,
        b < k,
{
    let r = choose|r: int| #[trigger] feeds_by(g, comp_of, a, b, r);
    let node = g.recipes@[r];
    touches_below(g, node.inputs@, comp_of, k, a);
    touches_below(g, node.outputs@, comp_of, k, b);
}

proof fn touches_below(g: KnowledgeGraph, slots: Seq<Slot>, comp_of: Seq<u32>, k: int, c: u32)
    requires
        crate::graph::slots_ok(slots, comp_of.len() as int),
        forall|m: int| 0 <= m < comp_of.len() ==> #[trigger] comp_of[m] < k,
        touches(slots, comp_of, c),
    ensures
        c < k,
{
    let m = choose|m: MaterialId| #[trigger]
        crate::graph::mentions(slots, m) && comp_of[m as int] == c;
    let (t, a) = choose|t: int, a: int| #[trigger] crate::graph::mentions_at(slots, m, t, a);
    assert(crate::graph::slot_ok(slots[t], comp_of.len() as int));
    assert(slots[t].alts@[a].0 < comp_of.len());
}

/// How many numbers of `list` are not in `done`.
spec fn pending(list: Seq<u32>, done: Seq<u32>) -> nat
    decreases list.len(),
{
    if list.len() == 0 {
        0
    } else {
        pending(list.drop_last(), done) + if done.contains(list.last()) {
            0nat
        } else {
            1
        }
    }
}

proof fn pending_none(list: Seq<u32>, done: Seq<u32>)
    ensures
        pending(list, done) <= list.len(),
        pending(list, done) == 0 <==> forall|i: int| 0 <= i < list.len() ==> done.contains(#[trigger] list[i]),
        done.len() == 0 ==> pending(list, done) == list.len(),
    decreases list.len(),
{
    if list.len() > 0 {
        pending_none(list.drop_last(), done);
        if forall|i: int| 0 <= i < list.len() ==> done.contains(#[trigger] list[i]) {
            assert forall|i: int| 0 <= i < list.len() - 1 implies done.contains(
                #[trigger] list.drop_last()[i],
            ) by {
                assert(list.drop_last()[i] == list[i]);
            }
            assert(done.contains(list[list.len() - 1]));
        }
        if pending(list, done) == 0 {
            assert forall|i: int| 0 <= i < list.len() implies done.contains(#[trigger] list[i]) by {
                if i < list.len() - 1 {
                    assert(list.drop_last()[i] == list[i]);
                }
            }
        }
    }
}

proof fn pending_push(list: Seq<u32>, done: Seq<u32>, c: u32)
    requires
        forall|a: int, b: int| 0 <= a < b < list.len() ==> #[trigger] list[a] < #[trigger] list[b],
        !done.contains(c),
    ensures
        list.contains(c) ==> pending(list, done.push(c)) + 1 == pending(list, done),
        !list.contains(c) ==> pending(list, done.push(c)) == pending(list, done),
    decreases list.len(),
{
    assert forall|x: u32| #[trigger] done.push(c).contains(x) <==> done.contains(x) || x == c by {
        if done.contains(x) {
            let i = choose|i: int| 0 <= i < done.len() && done[i] == x;
            assert(done.push(c)[i] == x);
        }
        assert(done.push(c).last() == c);
    }
    if list.len() > 0 {
        let short = list.drop_last();
        pending_push(short, done, c);
        if short.contains(c) {
            let i = choose|i: int| 0 <= i < short.len() && short[i] == c;
            assert(list[i] == c);
            assert(list[i] < list[list.len() - 1]);
        }
        if list.contains(c) && list.last() != c {
            let i = choose|i: int| 0 <= i < list.len() && list[i] == c;
            assert(short[i] == c);
        }
    }
}

proof fn few_below(s: Seq<u32>, k: int)
    requires
        k >= 0,
        s.no_duplicates(),
        forall|i: int| 0 <= i < s.len() ==> #[trigger] s[i] < k,
    ensures
        s.len() <= k,
{
    let m = s.map_values(|x: u32| x as int);
    assert(m.no_duplicates());
    m.unique_seq_to_set();
    vstd::set_lib::lemma_int_range(0, k);
    assert(m.to_set().subset_of(vstd::set_lib::set_int_range(0, k)));
    vstd::set_lib::lemma_len_subset(m.to_set(), vstd::set_lib::set_int_range(0, k));
}

/// `down` and `up` list the relation `f` from both of its ends.
spec fn relation(down: Seq<Vec<u32>>, up: Seq<Vec<u32>>, k: int, f: spec_fn(int, int) -> bool) -> bool {
    &&& 0 <= k <= u32::MAX
    &&& down.len() == k
    &&& up.len() == k
    &&& forall|c: int|
        0 <= c < k ==> crate::graph::lists((#[trigger] down[c])@, k, |d: int| f(c, d))
    &&& forall|c: int|
        0 <= c < k ==> crate::graph::lists((#[trigger] up[c])@, k, |d: int| f(d, c))
}

/// What is listed so far: each number after all that lead to it.
spec fn in_order(order: Seq<u32>, f: spec_fn(int, int) -> bool, k: int) -> bool {
    forall|a: int, j: int|
        #![trigger f(a, order[j] as int)]
        0 <= a < k && 0 <= j < order.len() && f(a, order[j] as int) ==> exists|i: int|
            0 <= i < j && order[i] == a
}

/// `all` holds the numbers below `k` that nothing is left to lead to.
spec fn waiting(all: Seq<u32>, indeg: Seq<u32>, k: int) -> bool {
    forall|b: u32| #[trigger] all.contains(b) <==> b < k && indeg[b as int] == 0
}

/// Where the relation only leads downwards, everything gets listed.
proof fn all_listed(
    down: Seq<Vec<u32>>,
    up: Seq<Vec<u32>>,
    k: int,
    f: spec_fn(int, int) -> bool,
    order: Seq<u32>,
    indeg: Seq<u32>,
    c: int,
)
    requires
        relation(down, up, k, f),
        indeg.len() == k,
        forall|b: int| 0 <= b < k ==> #[trigger] indeg[b] == pending(up[b]@, order),
        forall|b: int| 0 <= b < k ==> (order.contains(b as u32) <==> #[trigger] indeg[b] == 0),
        forall|a: int, b: int| 0 <= a < k && 0 <= b < k && #[trigger] f(a, b) ==> b < a,
        0 <= c < k,
    ensures
        order.contains(c as u32),
    decreases k - c,
{
    assert forall|b: u32| c < b < k implies #[trigger] order.contains(b) by {
        all_listed(down, up, k, f, order, indeg, b as int);
    }
    let list = up[c]@;
    let p = |d: int| f(d, c);
    assert(crate::graph::lists(list, k, p));
    assert forall|i: int| 0 <= i < list.len() implies order.contains(#[trigger] list[i]) by {
        assert(p(list[i] as int));
        assert(f(list[i] as int, c));
    }
    pending_none(list, order);
    assert(indeg[c] == 0);
}

proof fn take_contains(s: Seq<u32>, i: int)
    requires
        0 <= i < s.len(),
    ensures
        forall|b: u32| #[trigger]
            s.take(i + 1).contains(b) <==> s.take(i).contains(b) || b == s[i],
{
    let short = s.take(i);
    let long = s.take(i + 1);
    assert(long =~= short.push(s[i]));
    assert forall|b: u32| #[trigger] long.contains(b) <==> short.contains(b) || b == s[i] by {
        if short.contains(b) {
            let x = choose|x: int| 0 <= x < short.len() && short[x] == b;
            assert(long[x] == b);
        }
        assert(long[i] == s[i]);
    }
}

/// Lists the numbers below `k` first come, first served, each after all that lead
/// to it.
fn kahn(
    down: &Vec<Vec<u32>>,
    up: &Vec<Vec<u32>>,
    k: usize,
    Ghost(f): Ghost<spec_fn(int, int) -> bool>,
) -> (order: Vec<u32>)
    requires
        relation(down@, up@, k as int, f),
    ensures
        names_each(order@, k as int),
        first_come(down@, up@, k as int, order@),
        (forall|a: int, b: int| 0 <= a < k && 0 <= b < k && #[trigger] f(a, b) ==> b < a)
            ==> in_order(order@, f, k as int),
{
    let mut indeg: Vec<u32> = Vec::new();
    let mut queue: VecDeque<u32> = VecDeque::new();
    let mut order: Vec<u32> = Vec::new();
    let mut c: usize = 0;
    while c < k
        invariant
            c <= k,
            relation(down@, up@, k as int, f),
            order@.len() == 0,
            indeg@.len() == c,
            forall|b: int|
                0 <= b < c ==> #[trigger] indeg@[b] == pending(up@[b]@, order@),
            forall|b: u32|
                #[trigger] queue@.contains(b) <==> b < c && indeg@[b as int] == 0,
            queue@.no_duplicates(),
            queue@ == unfed_to(up@, c as int),
        decreases k - c,
    {
        proof {
            pending_none(up@[c as int]@, order@);
            let p = |d: int| f(d, c as int);
            assert(crate::graph::lists(up@[c as int]@, k as int, p));
            few_below(up@[c as int]@, k as int);
        }
        let ghost queue0 = queue@;
        let ghost indeg0 = indeg@;
        let deg: u32 = up[c].len() as u32;
        indeg.push(deg);
        if deg == 0 {
            queue.push_back(c as u32);
            assert(queue@.last() == c as u32);
            assert forall|i: int| 0 <= i < queue0.len() implies #[trigger] queue0[i] < c by {
                assert(queue0.contains(queue0[i]));
            }
        }
        assert forall|b: u32| #[trigger] queue@.contains(b) <==> b < c + 1 && indeg@[b as int]
            == 0 by {
            if queue0.contains(b) {
                let i = choose|i: int| 0 <= i < queue0.len() && queue0[i] == b;
                assert(queue@[i] == b);
            }
            if queue@.contains(b) && b != c {
                let i = choose|i: int| 0 <= i < queue@.len() && queue@[i] == b;
                assert(queue0[i] == b);
                assert(queue0.contains(b));
            }
        }
        c += 1;
    }
    assert(order@ + queue@ =~= queue@);
    let ghost mut n: nat = 0;
    let ghost mut line = Line::start(up@, k as int);
    assert(line.order =~= order@);
    while queue.len() > 0
        invariant
            line == Line::after(down@, up@, k as int, n),
            line.order == order@,
            line.queue == queue@,
            relation(down@, up@, k as int, f),
            indeg@.len() == k,
            forall|b: int|
                0 <= b < k ==> #[trigger] indeg@[b] == pending(up@[b]@, order@),
            waiting(order@ + queue@, indeg@, k as int),
            (order@ + queue@).no_duplicates(),
            in_order(order@, f, k as int),
            order@.len() <= k,
        decreases k - order@.len(),
    {
        let ghost all = order@ + queue@;
        let ghost before = order@;
        let ghost queue0 = queue@;
        proof {
            assert forall|i: int| 0 <= i < all.len() implies #[trigger] all[i] < k by {
                assert(all.contains(all[i]));
                assert(indeg@[all[i] as int] == 0);
            }
            few_below(all, k as int);
        }
        match queue.pop_front() {
            Some(c) => {
                proof {
                    assert(all[before.len() as int] == c);
                    assert(all.contains(c));
                    assert(c == queue0[0]);
                    assert(indeg@[c as int] == 0);
                    pending_none(up@[c as int]@, before);
                    if before.contains(c) {
                        let i = choose|i: int| 0 <= i < before.len() && before[i] == c;
                        assert(all[i] == all[before.len() as int]);
                    }
                }
                order.push(c);
                proof {
                    assert(order@ + queue@ =~= all);
                    let list = up@[c as int]@;
                    let p = |d: int| f(d, c as int);
                    assert(crate::graph::lists(list, k as int, p));
                    assert forall|a: int, j: int|
                        #![trigger f(a, order@[j] as int)]
                        0 <= a < k && 0 <= j < order@.len() && f(
                            a,
                            order@[j] as int,
                        ) implies exists|i: int| 0 <= i < j && order@[i] == a by {
                        if j < before.len() {
                            assert(f(a, before[j] as int));
                            let i = choose|i: int| 0 <= i < j && before[i] == a;
                            assert(order@[i] == a);
                        } else {
                            assert(p(a));
                            assert(list.contains(a as u32));
                            let x = choose|x: int| 0 <= x < list.len() && list[x] == a as u32;
                            assert(before.contains(list[x]));
                            let i = choose|i: int| 0 <= i < before.len() && before[i] == list[x];
                            assert(order@[i] == a);
                        }
                    }
                }
                let outs = &down[c as usize];
                let ghost q = |d: int| f(c as int, d);
                assert(crate::graph::lists(outs@, k as int, q));
                let mut i: usize = 0;
                assert(queue@ =~= queue0.drop_first());
                assert(queue@ =~= queue0.drop_first() + freed_to(up@, order@, outs@, 0));
                assert forall|b: u32| b < k implies !#[trigger] outs@.take(0).contains(b) by {}
                while i < outs.len()
                    invariant
                        i <= outs@.len(),
                        relation(down@, up@, k as int, f),
                        c < k,
                        outs@ == down@[c as int]@,
                        q == (|d: int| f(c as int, d)),
                        crate::graph::lists(outs@, k as int, q),
                        order@ == before.push(c),
                        !before.contains(c),
                        indeg@.len() == k,
                        forall|b: int|
                            0 <= b < k ==> #[trigger] indeg@[b] == if outs@.take(
                                i as int,
                            ).contains(b as u32) {
                                pending(up@[b]@, order@)
                            } else {
                                pending(up@[b]@, before)
                            },
                        waiting(order@ + queue@, indeg@, k as int),
                        (order@ + queue@).no_duplicates(),
                        in_order(order@, f, k as int),
                        order@.len() <= k,
                        queue@ == queue0.drop_first() + freed_to(up@, order@, outs@, i as int),
                    decreases outs@.len() - i,
                {
                    let d: u32 = outs[i];
                    let ghost indeg0 = indeg@;
                    let ghost queue1 = queue@;
                    let ghost all1 = order@ + queue@;
                    proof {
                        assert(q(outs@[i as int] as int));
                        let p = |x: int| f(x, d as int);
                        assert(crate::graph::lists(up@[d as int]@, k as int, p));
                        assert(p(c as int));
                        assert(up@[d as int]@.contains(c));
                        pending_push(up@[d as int]@, before, c);
                        assert(!outs@.take(i as int).contains(d));
                        assert(indeg@[d as int] > 0);
                        assert(!all1.contains(d));
                    }
                    indeg[d as usize] = indeg[d as usize] - 1;
                    if indeg[d as usize] == 0 {
                        queue.push_back(d);
                        proof {
                            assert(order@ + queue@ =~= all1.push(d));
                        }
                    }
                    proof {
                        take_contains(outs@, i as int);
                        pending_none(up@[d as int]@, order@);
                        assert(all_fed(up@, order@, d as int) <==> indeg@[d as int] == 0);
                        assert(queue@ =~= queue0.drop_first() + freed_to(
                            up@,
                            order@,
                            outs@,
                            i + 1,
                        ));
                        let all2 = order@ + queue@;
                        assert forall|b: u32| #[trigger] all2.contains(b) <==> b < k
                            && indeg@[b as int] == 0 by {
                            assert(all1.contains(b) <==> b < k && indeg0[b as int] == 0);
                            if indeg@[d as int] == 0 {
                                if all1.contains(b) {
                                    let x = choose|x: int| 0 <= x < all1.len() && all1[x] == b;
                                    assert(all2[x] == b);
                                }
                                assert(all2.last() == d);
                                if all2.contains(b) && b != d {
                                    let x = choose|x: int| 0 <= x < all2.len() && all2[x] == b;
                                    assert(all1[x] == b);
                                }
                            } else {
                                assert(all2 == all1);
                            }
                        }
                    }
                    i += 1;
                }
                proof {
                    line = line.step(down@, up@);
                    n = n + 1;
                    assert(outs@.take(i as int) =~= outs@);
                    assert forall|b: int| 0 <= b < k implies #[trigger] indeg@[b] == pending(
                        up@[b]@,
                        order@,
                    ) by {
                        let p = |x: int| f(x, b);
                        assert(crate::graph::lists(up@[b]@, k as int, p));
                        if !outs@.contains(b as u32) {
                            if up@[b]@.contains(c) {
                                let x = choose|x: int| 0 <= x < up@[b]@.len() && up@[b]@[x] == c;
                                assert(p(up@[b]@[x] as int));
                                assert(q(b));
                            }
                            pending_push(up@[b]@, before, c);
                        }
                    }
                }
            },
            None => {},
        }
    }
    proof {
        assert(order@ + queue@ =~= order@);
        assert forall|i: int| 0 <= i < order@.len() implies #[trigger] order@[i] < k by {
            assert(order@.contains(order@[i]));
        }
        if forall|a: int, b: int| 0 <= a < k && 0 <= b < k && #[trigger] f(a, b) ==> b < a {
            assert forall|c: u32| c < k implies #[trigger] order@.contains(c) by {
                assert forall|b: int| 0 <= b < k implies (order@.contains(b as u32)
                    <==> #[trigger] indeg@[b] == 0) by {
                    assert(order@.contains(b as u32) <==> indeg@[(b as u32) as int] == 0);
                }
                all_listed(down@, up@, k as int, f, order@, indeg@, c as int);
            }
        }
    }
    listed_rest(order, k)
}

/// Lists behind `order` the numbers below `k` that it lacks.
fn listed_rest(order: Vec<u32>, k: usize) -> (r: Vec<u32>)
    requires
        k <= u32::MAX,
        order@.no_duplicates(),
        forall|i: int| 0 <= i < order@.len() ==> #[trigger] order@[i] < k,
    ensures
        names_each(r@, k as int),
        r@ == order@ + lacked_to(order@, k as int),
        (forall|b: u32| b < k ==> #[trigger] order@.contains(b)) ==> r@ == order@,
{
    let ghost start = order@;
    let mut order = order;
    let mut seen: Vec<bool> = filled(k, false);
    let mut i: usize = 0;
    while i < order.len()
        invariant
            i <= order@.len(),
            order@ == start,
            seen@.len() == k,
            forall|i: int| 0 <= i < order@.len() ==> #[trigger] order@[i] < k,
            forall|b: int|
                0 <= b < k ==> (#[trigger] seen@[b] <==> exists|j: int|
                    0 <= j < i && order@[j] == b),
        decreases order@.len() - i,
    {
        let c: u32 = order[i];
        let ghost seen0 = seen@;
        seen[c as usize] = true;
        assert forall|b: int| 0 <= b < k implies (#[trigger] seen@[b] <==> exists|j: int|
            0 <= j < i + 1 && order@[j] == b) by {
            if b != c && seen0[b] {
                let j = choose|j: int| 0 <= j < i && order@[j] == b;
                assert(order@[j] == b);
            }
            if b == c {
                assert(order@[i as int] == b);
            }
        }
        i += 1;
    }
    let mut c: usize = 0;
    assert(order@ =~= start + lacked_to(start, 0));
    while c < k
        invariant
            c <= k <= u32::MAX,
            order@ == start + lacked_to(start, c as int),
            seen@.len() == k,
            order@.no_duplicates(),
            forall|i: int| 0 <= i < order@.len() ==> #[trigger] order@[i] < k,
            forall|b: int| 0 <= b < k ==> (#[trigger] seen@[b] <==> start.contains(b as u32)),
            forall|b: u32|
                #[trigger] order@.contains(b) <==> start.contains(b) || (b < c && b < k),
            (forall|b: u32| b < k ==> #[trigger] start.contains(b)) ==> order@ == start,
        decreases k - c,
    {
        let ghost order0 = order@;
        if !seen[c] {
            assert(!order@.contains(c as u32));
            order.push(c as u32);
            assert(order@.last() == c as u32);
        }
        assert forall|b: u32| #[trigger] order@.contains(b) <==> start.contains(b) || (b < c + 1
            && b < k) by {
            if order0.contains(b) {
                let j = choose|j: int| 0 <= j < order0.len() && order0[j] == b;
                assert(order@[j] == b);
            }
            if order@.contains(b) && b != c {
                let j = choose|j: int| 0 <= j < order@.len() && order@[j] == b;
                assert(order0[j] == b);
            }
            if b == c {
                assert(seen@[b as int] ==> start.contains(b));
            }
        }
        assert(order@ =~= start + lacked_to(start, c + 1)) by {
            assert(seen@[c as int] <==> start.contains(c as u32));
        }
        c += 1;
    }
    assert forall|b: u32| #[trigger] order@.contains(b) <==> b < k by {
        if start.contains(b) {
            let j = choose|j: int| 0 <= j < start.len() && start[j] == b;
            assert(start[j] < k);
        }
    }
    order
}

/// Who feeds whom leads to smaller numbers of components.
proof fn feeds_down(g: KnowledgeGraph, scc: SccResult, comp_of: Seq<u32>, a: u32, b: u32)
    requires
        g.wf(),
        scc_of(g, scc),
        comp_of == scc.comp@.take(g.m_count()),
        feeds(g, comp_of, a, b),
    ensures
        b < a,
{
    let adj = choose|adj: Seq<Vec<u32>>| #[trigger]
        crate::algo::scc::production_edges(g, adj) && crate::algo::scc::splits(
            adj,
            g.m_count() + g.r_count(),
            scc,
        );
    let m = g.m_count();
    let r = choose|r: int| #[trigger] feeds_by(g, comp_of, a, b, r);
    let ins = g.recipes@[r].inputs@;
    let outs = g.recipes@[r].outputs@;
    let i = choose|i: MaterialId| #[trigger]
        crate::graph::mentions(ins, i) && comp_of[i as int] == a;
    let o = choose|o: MaterialId| #[trigger]
        crate::graph::mentions(outs, o) && comp_of[o as int] == b;
    mentioned_below(ins, m, i);
    mentioned_below(outs, m, o);
    let from_i = |w: int| crate::algo::scc::leads(g, i as int, w);
    assert(crate::graph::lists(adj[i as int]@, adj.len() as int, from_i));
    assert(from_i(m + r));
    assert(adj[i as int]@.contains((m + r) as u32));
    let k = choose|k: int|
        0 <= k < adj[i as int]@.len() && adj[i as int]@[k] == (m + r) as u32;
    assert(scc.comp@[adj[i as int]@[k] as int] <= scc.comp@[i as int]);
    let from_r = |w: int| crate::algo::scc::leads(g, m + r, w);
    assert(crate::graph::lists(adj[m + r]@, adj.len() as int, from_r));
    assert(from_r(o as int));
    let node = m + r;
    assert(adj[node]@.contains(o));
    let l = choose|l: int| 0 <= l < adj[node]@.len() && adj[node]@[l] == o;
    assert(scc.comp@[adj[node]@[l] as int] <= scc.comp@[node]);
}

proof fn mentioned_below(slots: Seq<Slot>, n: int, m: MaterialId)
    requires
        crate::graph::slots_ok(slots, n),
        crate::graph::mentions(slots, m),
    ensures
        m < n,
{
    let (t, a) = choose|t: int, a: int| #[trigger] crate::graph::mentions_at(slots, m, t, a);
    assert(crate::graph::slot_ok(slots[t], n));
    assert(slots[t].alts@[a].0 < n);
}

impl Condensation {
    /// Condenses the graph. The components are listed first come, first served;
    /// where they are those of the production graph, every component is listed
    /// after all that feed it.
    pub fn build(g: &KnowledgeGraph, scc: &SccResult) -> (r: Self)
        requires
            g.wf(),
            scc_fits(*g, *scc),
        ensures
            r.fits(*g),
            r.connects(*g),
            r.comp_count == scc.sizes@.len(),
            r.comp_of_material@ == scc.comp@.take(g.m_count()),
            r.comp_of_recipe@ == scc.comp@.skip(g.m_count()),
            forall|c: int|
                0 <= c < r.comp_count ==> (#[trigger] r.cyclic@[c] <==> scc.sizes@[c] > 1),
            first_come(
                r.comp_downstream@,
                r.comp_upstream@,
                r.comp_count as int,
                r.topo_order@,
            ),
            scc_of(*g, *scc) ==> forall|a: u32, b: u32| #[trigger]
                feeds(*g, r.comp_of_material@, a, b) ==> precedes(r.topo_order@, a, b),
    {
        let m_count: usize = g.materials.len();
        let r_count: usize = g.recipes.len();
        let comp_count: usize = scc.sizes.len();
        let mut comp_of_material: Vec<u32> = Vec::new();
        let mut m: usize = 0;
        while m < m_count
            invariant
                m <= m_count,
                m_count == g.m_count(),
                scc_fits(*g, *scc),
                comp_of_material@ == scc.comp@.take(m as int),
            decreases m_count - m,
        {
            comp_of_material.push(scc.comp[m]);
            m += 1;
            assert(comp_of_material@ =~= scc.comp@.take(m as int));
        }
        let mut comp_of_recipe: Vec<u32> = Vec::new();
        let mut r: usize = 0;
        while r < r_count
            invariant
                r <= r_count,
                m_count == g.m_count(),
                r_count == g.r_count(),
                scc_fits(*g, *scc),
                m_count + r_count <= usize::MAX,
                comp_of_recipe@ == scc.comp@.subrange(m_count as int, m_count + r),
            decreases r_count - r,
        {
            comp_of_recipe.push(scc.comp[m_count + r]);
            r += 1;
            assert(comp_of_recipe@ =~= scc.comp@.subrange(m_count as int, m_count + r));
        }
        assert(comp_of_recipe@ =~= scc.comp@.skip(g.m_count()));
        let materials_in_comp = grouped(&comp_of_material, comp_count);
        let recipes_in_comp = grouped(&comp_of_recipe, comp_count);
        let (comp_downstream, comp_upstream) = edges_of(g, &comp_of_material, comp_count);
        let ghost f = |a: int, b: int| feeds(*g, comp_of_material@, a as u32, b as u32);
        proof {
            assert forall|c: int| 0 <= c < comp_count implies crate::graph::lists(
                (#[trigger] comp_downstream@[c])@,
                comp_count as int,
                |d: int| f(c, d),
            ) by {
                let p = |d: int| feeds(*g, comp_of_material@, c as u32, d as u32);
                let q = |d: int| f(c, d);
                assert(crate::graph::lists(comp_downstream@[c]@, comp_count as int, p));
                assert forall|x: int| 0 <= x < comp_count && #[trigger] q(
                    x,
                ) implies comp_downstream@[c]@.contains(x as u32) by {
                    assert(p(x));
                }
                assert forall|a: int| 0 <= a < comp_downstream@[c]@.len() implies (
                #[trigger] comp_downstream@[c]@[a]) < comp_count && q(
                    comp_downstream@[c]@[a] as int,
                ) by {
                    assert(p(comp_downstream@[c]@[a] as int));
                }
            }
            assert forall|c: int| 0 <= c < comp_count implies crate::graph::lists(
                (#[trigger] comp_upstream@[c])@,
                comp_count as int,
                |d: int| f(d, c),
            ) by {
                let p = |d: int| feeds(*g, comp_of_material@, d as u32, c as u32);
                let q = |d: int| f(d, c);
                assert(crate::graph::lists(comp_upstream@[c]@, comp_count as int, p));
                assert forall|x: int| 0 <= x < comp_count && #[trigger] q(
                    x,
                ) implies comp_upstream@[c]@.contains(x as u32) by {
                    assert(p(x));
                }
                assert forall|a: int| 0 <= a < comp_upstream@[c]@.len() implies (
                #[trigger] comp_upstream@[c]@[a]) < comp_count && q(
                    comp_upstream@[c]@[a] as int,
                ) by {
                    assert(p(comp_upstream@[c]@[a] as int));
                }
            }
        }
        let topo_order = kahn(&comp_downstream, &comp_upstream, comp_count, Ghost(f));
        proof {
            if scc_of(*g, *scc) {
                assert forall|a: int, b: int|
                    0 <= a < comp_count && 0 <= b < comp_count && #[trigger] f(a, b) implies b
                    < a by {
                    feeds_down(*g, *scc, comp_of_material@, a as u32, b as u32);
                }
                assert forall|a: u32, b: u32| #[trigger]
                    feeds(*g, comp_of_material@, a, b) implies precedes(topo_order@, a, b) by {
                    feeds_below(*g, comp_of_material@, comp_count as int, a, b);
                    assert(topo_order@.contains(b));
                    let j = choose|j: int| 0 <= j < topo_order@.len() && topo_order@[j] == b;
                    assert(f(a as int, topo_order@[j] as int));
                    let i = choose|i: int| 0 <= i < j && topo_order@[i] == a as int;
                    assert(topo_order@[i] == a && topo_order@[j] == b);
                }
            }
        }
        let mut cyclic: Vec<bool> = Vec::new();
        let mut c: usize = 0;
        while c < comp_count
            invariant
                c <= comp_count,
                comp_count == scc.sizes@.len(),
                cyclic@.len() == c,
                forall|k: int| 0 <= k < c ==> (#[trigger] cyclic@[k] <==> scc.sizes@[k] > 1),
            decreases comp_count - c,
        {
            cyclic.push(scc.sizes[c] > 1);
            c += 1;
        }
        Condensation {
            comp_count,
            comp_of_material,
            comp_of_recipe,
            materials_in_comp,
            recipes_in_comp,
            topo_order,
            comp_downstream,
            comp_upstream,
            cyclic,
        }
    }

    /// Whether a material lies on a cycle.
    pub fn material_cyclic(&self, m: MaterialId) -> (r: bool)
        requires
            m < self.comp_of_material@.len(),
            self.comp_of_material@[m as int] < self.cyclic@.len(),
        ensures
            r == self.cyclic@[self.comp_of_material@[m as int] as int],
    {
        self.cyclic[self.comp_of_material[m as usize] as usize]
    }

    /// How many components are cycles.
    pub fn cyclic_component_count(&self) -> (r: usize)
        ensures
            r == self.cyclic@.filter(|c: bool| c).len(),
    {
        let mut count: usize = 0;
        let mut i: usize = 0;
        while i < self.cyclic.len()
            invariant
                i <= self.cyclic@.len(),
                count <= i,
                count == self.cyclic@.take(i as int).filter(|c: bool| c).len(),
            decreases self.cyclic@.len() - i,
        {
            proof {
                reveal(Seq::filter);
                assert(self.cyclic@.take(i + 1).drop_last() =~= self.cyclic@.take(i as int));
            }
            if self.cyclic[i] {
                count += 1;
            }
            i += 1;
        }
        assert(self.cyclic@.take(i as int) =~= self.cyclic@);
        count
    }
}

} // verus!

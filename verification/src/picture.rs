//! What a picture of a graph shows.
use vstd::prelude::*;

use crate::graph::KnowledgeGraph;
use crate::model::{MaterialId, RecipeId, Slot};
use crate::scalar::Arithmetic;
use crate::view::{
    has_edge, has_node, material_node, material_node_id, primaries_to, quantity_order, recipe_node,
    recipe_node_id, top_of, with_edge, with_node, Around, EdgeText, NodeText, Walk,
};

verus! {

/// An edge leads from a material to a recipe that takes it, or from a recipe to a
/// material that it makes.
pub open spec fn is_true(g: KnowledgeGraph, e: EdgeText) -> bool {
    exists|r: RecipeId, m: MaterialId| #[trigger] leads(g, e, r, m)
}

pub open spec fn leads(g: KnowledgeGraph, e: EdgeText, r: RecipeId, m: MaterialId) -> bool {
    &&& r < g.r_count()
    &&& (e.source == recipe_node_id(r) && e.target == material_node_id(m) && g.produces(r as int, m))
        || (e.source == material_node_id(m) && e.target == recipe_node_id(r) && g.consumes(
        r as int,
        m,
    ))
}

/// All edges are true.
pub open spec fn all_true(g: KnowledgeGraph, edges: Seq<EdgeText>) -> bool {
    forall|i: int| 0 <= i < edges.len() ==> is_true(g, #[trigger] edges[i])
}

/// A picture goes on from another: it holds its nodes and edges, and has met what it
/// has met; one that is broken off stays so.
pub open spec fn goes_on(w: Walk, t: Walk) -> bool {
    &&& forall|id: Seq<char>| #[trigger] has_node(w.nodes, id) ==> has_node(t.nodes, id)
    &&& forall|a: Seq<char>, b: Seq<char>| #[trigger]
        has_edge(w.edges, a, b) ==> has_edge(t.edges, a, b)
    &&& t.up.len() == w.up.len() && t.down.len() == w.down.len()
    &&& forall|m: int| 0 <= m < w.up.len() && #[trigger] w.up[m] ==> t.up[m]
    &&& forall|m: int| 0 <= m < w.down.len() && #[trigger] w.down[m] ==> t.down[m]
    &&& w.stopped ==> t.stopped
}

proof fn node_added(nodes: Seq<NodeText>, n: NodeText)
    ensures
        has_node(with_node(nodes, n), n.id),
        forall|id: Seq<char>| #[trigger] has_node(nodes, id) ==> has_node(with_node(nodes, n), id),
{
    let now = with_node(nodes, n);
    if !has_node(nodes, n.id) {
        assert(now[nodes.len() as int].id == n.id);
        assert forall|id: Seq<char>| #[trigger] has_node(nodes, id) implies has_node(now, id) by {
            let i = choose|i: int| 0 <= i < nodes.len() && (#[trigger] nodes[i]).id == id;
            assert(now[i].id == id);
        }
    }
}

proof fn edge_added(
    g: KnowledgeGraph,
    edges: Seq<EdgeText>,
    source: Seq<char>,
    target: Seq<char>,
    label: Option<Seq<char>>,
    r: RecipeId,
    m: MaterialId,
)
    requires
        all_true(g, edges),
        leads(
            g,
            (EdgeText { id: "e:"@ + source + ">"@ + target, source, target, label }),
            r,
            m,
        ),
    ensures
        has_edge(with_edge(edges, source, target, label), source, target),
        all_true(g, with_edge(edges, source, target, label)),
        forall|a: Seq<char>, b: Seq<char>| #[trigger]
            has_edge(edges, a, b) ==> has_edge(with_edge(edges, source, target, label), a, b),
{
    let now = with_edge(edges, source, target, label);
    if !has_edge(edges, source, target) {
        let n = edges.len() as int;
        assert(now[n].source == source && now[n].target == target);
        assert(leads(g, now[n], r, m));
        assert forall|a: Seq<char>, b: Seq<char>| #[trigger] has_edge(edges, a, b) implies has_edge(
            now,
            a,
            b,
        ) by {
            let i = choose|i: int|
                0 <= i < edges.len() && (#[trigger] edges[i]).source == a && edges[i].target == b;
            assert(now[i] == edges[i]);
        }
        assert forall|i: int| 0 <= i < now.len() implies is_true(g, #[trigger] now[i]) by {
            if i < n {
                assert(is_true(g, edges[i]));
            }
        }
    }
}

/// The material is in the picture, joined to the recipe, and was met.
pub open spec fn joined(w: Walk, r: RecipeId, m: MaterialId, upward: bool) -> bool {
    &&& has_node(w.nodes, material_node_id(m))
    &&& if upward {
        has_edge(w.edges, material_node_id(m), recipe_node_id(r)) && w.up[m as int]
    } else {
        has_edge(w.edges, recipe_node_id(r), material_node_id(m)) && w.down[m as int]
    }
}

impl<'a, A: Arithmetic> Around<'a, A> {
    /// The materials beyond a recipe that are shown: what it takes on the way up, what
    /// it makes on the way down, the greatest quantities.
    pub open spec fn beyond(self, r: RecipeId, upward: bool) -> Seq<(MaterialId, u64)> {
        let node = self.g.recipes@[r as int];
        if upward {
            top_of(*self.ar, *self.g, node.inputs@, self.max_inputs)
        } else {
            top_of(*self.ar, *self.g, node.outputs@, self.max_outputs)
        }
    }

    /// The recipe is in the picture, joined to the material that it was met from and
    /// to those beyond it.
    pub open spec fn shown(self, w: Walk, r: RecipeId, m: MaterialId, upward: bool) -> bool {
        &&& has_node(w.nodes, recipe_node_id(r))
        &&& if upward {
            has_edge(w.edges, recipe_node_id(r), material_node_id(m))
        } else {
            has_edge(w.edges, material_node_id(m), recipe_node_id(r))
        }
        &&& forall|k: int|
            0 <= k < self.beyond(r, upward).len() ==> joined(
                w,
                r,
                (#[trigger] self.beyond(r, upward)[k]).0,
                upward,
            )
    }

    proof fn shown_stays(self, w: Walk, t: Walk, r: RecipeId, m: MaterialId, upward: bool)
        requires
            goes_on(w, t),
            self.shown(w, r, m, upward),
            self.g.wf(),
            r < self.g.r_count(),
            w.up.len() == self.g.m_count(),
            w.down.len() == self.g.m_count(),
        ensures
            self.shown(t, r, m, upward),
    {
        self.beyond_is_near(r, upward);
        assert forall|k: int| 0 <= k < self.beyond(r, upward).len() implies joined(
            t,
            r,
            (#[trigger] self.beyond(r, upward)[k]).0,
            upward,
        ) by {
            assert(joined(w, r, self.beyond(r, upward)[k].0, upward));
        }
    }

    proof fn beyond_is_near(self, r: RecipeId, upward: bool)
        requires
            self.g.wf(),
            r < self.g.r_count(),
        ensures
            forall|k: int|
                0 <= k < self.beyond(r, upward).len() ==> (#[trigger] self.beyond(r, upward)[k]).0
                    < self.g.m_count() && if upward {
                    self.g.consumes(r as int, self.beyond(r, upward)[k].0)
                } else {
                    self.g.produces(r as int, self.beyond(r, upward)[k].0)
                },
    {
        let node = self.g.recipes@[r as int];
        assert(crate::graph::slots_ok(node.inputs@, self.g.m_count()));
        assert(crate::graph::slots_ok(node.outputs@, self.g.m_count()));
        let slots = if upward { node.inputs@ } else { node.outputs@ };
        let limit = if upward { self.max_inputs } else { self.max_outputs };
        let list = self.beyond(r, upward);
        assert(node.inputs@.len() == node.inputs.len() && node.outputs@.len()
            == node.outputs.len());
        assert forall|k: int| 0 <= k < list.len() implies (#[trigger] list[k]).0 < self.g.m_count()
            && crate::graph::mentions(slots, list[k].0) by {
            top_is_primary(*self.ar, *self.g, slots, limit, k);
            let (m, q) = list[k];
            let s = choose|s: int|
                0 <= s < slots.len() && (#[trigger] slots[s]).alts@.len() > 0 && slots[s].alts@[0]
                    == (m, q);
            assert(crate::graph::slot_ok(slots[s], self.g.m_count()));
            assert(crate::graph::mentions_at(slots, m, s, 0));
        }
    }

    proof fn shows_beyond(
        self,
        w: Walk,
        r: RecipeId,
        list: Seq<(MaterialId, u64)>,
        far: usize,
        upward: bool,
        k: int,
    )
        requires
            0 <= k <= list.len(),
            r < self.g.r_count(),
            all_true(*self.g, w.edges),
            w.up.len() == self.g.m_count(),
            w.down.len() == self.g.m_count(),
            forall|j: int|
                0 <= j < list.len() ==> (#[trigger] list[j]).0 < self.g.m_count() && if upward {
                    self.g.consumes(r as int, list[j].0)
                } else {
                    self.g.produces(r as int, list[j].0)
                },
        ensures
            ({
                let t = self.show_to(w, r, list, far, upward, k);
                &&& goes_on(w, t)
                &&& t.stopped == w.stopped
                &&& all_true(*self.g, t.edges)
                &&& forall|j: int| 0 <= j < k ==> joined(t, r, (#[trigger] list[j]).0, upward)
            }),
        decreases k,
    {
        if k > 0 {
            self.shows_beyond(w, r, list, far, upward, k - 1);
            let t = self.show_to(w, r, list, far, upward, k - 1);
            let now = self.show_to(w, r, list, far, upward, k);
            let (m, q) = list[k - 1];
            let label = crate::view::quantity_label(*self.g, m, q);
            node_added(t.nodes, material_node(*self.g, m));
            assert(list[k - 1].0 == m);
            if upward {
                let (a, b) = (material_node_id(m), recipe_node_id(r));
                let e = EdgeText { id: "e:"@ + a + ">"@ + b, source: a, target: b, label };
                assert(leads(*self.g, e, r, m));
                edge_added(*self.g, t.edges, a, b, label, r, m);
            } else {
                let (a, b) = (recipe_node_id(r), material_node_id(m));
                let e = EdgeText { id: "e:"@ + a + ">"@ + b, source: a, target: b, label };
                assert(leads(*self.g, e, r, m));
                edge_added(*self.g, t.edges, a, b, label, r, m);
            }
            assert(goes_on(t, now));
            assert forall|j: int| 0 <= j < k implies joined(now, r, (#[trigger] list[j]).0, upward) by {
                if j < k - 1 {
                    assert(joined(t, r, list[j].0, upward));
                }
            }
        }
    }

    proof fn look_shows(self, w: Walk, r: RecipeId, m: MaterialId, far: usize, upward: bool)
        requires
            self.g.wf(),
            r < self.g.r_count(),
            m < self.g.m_count(),
            all_true(*self.g, w.edges),
            w.up.len() == self.g.m_count(),
            w.down.len() == self.g.m_count(),
            if upward {
                self.g.produces(r as int, m)
            } else {
                self.g.consumes(r as int, m)
            },
        ensures
            ({
                let t = self.look(w, r, m, far, upward);
                &&& goes_on(w, t)
                &&& all_true(*self.g, t.edges)
                &&& !t.stopped && !self.passes(r, upward) ==> self.shown(t, r, m, upward)
            }),
    {
        let node = self.g.recipes@[r as int];
        if !w.stopped && !self.passes(r, upward) && w.nodes.len() < self.node_limit {
            self.beyond_is_near(r, upward);
            let qty = if upward {
                match crate::util::qty_in(node.outputs@, m) {
                    Some(q) => q,
                    None => 0,
                }
            } else {
                crate::view::last_qty(node.inputs@, m, node.inputs@.len() as int)
            };
            let label = crate::view::quantity_label(*self.g, m, qty);
            node_added(w.nodes, recipe_node(*self.g, r));
            let (a, b) = if upward {
                (recipe_node_id(r), material_node_id(m))
            } else {
                (material_node_id(m), recipe_node_id(r))
            };
            let e = EdgeText { id: "e:"@ + a + ">"@ + b, source: a, target: b, label };
            assert(leads(*self.g, e, r, m));
            edge_added(*self.g, w.edges, a, b, label, r, m);
            let slots = if upward { node.inputs@ } else { node.outputs@ };
            let limit = if upward { self.max_inputs } else { self.max_outputs };
            let mid = Walk {
                nodes: with_node(w.nodes, recipe_node(*self.g, r)),
                edges: with_edge(w.edges, a, b, label),
                pruned: crate::list::capped(w.pruned, crate::view::left_out(slots, limit)),
                ..w
            };
            let list = self.beyond(r, upward);
            assert(recipe_node(*self.g, r).id == recipe_node_id(r));
            assert(has_node(mid.nodes, recipe_node_id(r)));
            assert(has_edge(mid.edges, a, b));
            assert(goes_on(w, mid));
            self.shows_beyond(
                mid,
                r,
                list,
                crate::list::capped(far, 1),
                upward,
                list.len() as int,
            );
            let t = self.look(w, r, m, far, upward);
            assert(t == self.show_to(
                mid,
                r,
                list,
                crate::list::capped(far, 1),
                upward,
                list.len() as int,
            ));
            assert forall|k: int| 0 <= k < list.len() implies joined(
                t,
                r,
                (#[trigger] self.beyond(r, upward)[k]).0,
                upward,
            ) by {
                assert(joined(t, r, list[k].0, upward));
            }
        }
    }

    proof fn looks_show(
        self,
        w: Walk,
        list: Seq<RecipeId>,
        m: MaterialId,
        far: usize,
        upward: bool,
        k: int,
    )
        requires
            self.g.wf(),
            0 <= k <= list.len(),
            m < self.g.m_count(),
            all_true(*self.g, w.edges),
            w.up.len() == self.g.m_count(),
            w.down.len() == self.g.m_count(),
            forall|j: int|
                0 <= j < list.len() ==> (#[trigger] list[j]) < self.g.r_count() && if upward {
                    self.g.produces(list[j] as int, m)
                } else {
                    self.g.consumes(list[j] as int, m)
                },
        ensures
            ({
                let t = self.look_to(w, list, m, far, upward, k);
                &&& goes_on(w, t)
                &&& all_true(*self.g, t.edges)
                &&& !t.stopped ==> forall|j: int|
                    0 <= j < k && !self.passes(#[trigger] list[j], upward) ==> self.shown(
                        t,
                        list[j],
                        m,
                        upward,
                    )
            }),
        decreases k,
    {
        if k > 0 {
            self.looks_show(w, list, m, far, upward, k - 1);
            let t = self.look_to(w, list, m, far, upward, k - 1);
            let now = self.look_to(w, list, m, far, upward, k);
            self.look_shows(t, list[k - 1], m, far, upward);
            if !now.stopped {
                assert forall|j: int|
                    0 <= j < k && !self.passes(#[trigger] list[j], upward) implies self.shown(
                    now,
                    list[j],
                    m,
                    upward,
                ) by {
                    if j < k - 1 {
                        self.shown_stays(t, now, list[j], m, upward);
                    }
                }
            }
        }
    }

    /// A step shows everything about a material that is not too far off: unless the
    /// picture is full, every recipe that makes it, on the way up, or takes it, on the
    /// way down, is shown with the materials beyond it, except those that are passed
    /// over. All edges are true, and nothing that was shown is lost.
    pub proof fn step_shows_recipes(self, w: Walk)
        requires
            self.g.wf(),
            w.queue.len() > 0,
            w.queue[0].0 < self.g.m_count(),
            all_true(*self.g, w.edges),
            w.up.len() == self.g.m_count(),
            w.down.len() == self.g.m_count(),
        ensures
            ({
                let (m, far, upward) = w.queue[0];
                let t = self.step(w);
                &&& goes_on(w, t)
                &&& all_true(*self.g, t.edges)
                &&& !t.stopped && far < self.depth ==> forall|r: RecipeId|
                    #[trigger] self.next_to(r, m, upward) && self.worth_showing(r, upward)
                        ==> self.shown(t, r, m, upward)
            }),
    {
        let (m, far, upward) = w.queue[0];
        let t0 = Walk { queue: w.queue.drop_first(), ..w };
        let list = if upward {
            self.g.producers@[m as int]@
        } else {
            self.g.consumers@[m as int]@
        };
        let p = |r: int| self.g.produces(r, m as int as u32);
        let c = |r: int| self.g.consumes(r, m as int as u32);
        assert(crate::graph::lists(self.g.producers@[m as int]@, self.g.r_count(), p));
        assert(crate::graph::lists(self.g.consumers@[m as int]@, self.g.r_count(), c));
        assert forall|j: int| 0 <= j < list.len() implies (#[trigger] list[j]) < self.g.r_count()
            && if upward {
            self.g.produces(list[j] as int, m)
        } else {
            self.g.consumes(list[j] as int, m)
        } by {
            assert(upward ==> p(list[j] as int));
            assert(!upward ==> c(list[j] as int));
        }
        self.looks_show(t0, list, m, far, upward, list.len() as int);
        let t = self.step(w);
        if !t.stopped && far < self.depth {
            assert forall|r: RecipeId|
                #[trigger] self.next_to(r, m, upward) && self.worth_showing(
                    r,
                    upward,
                ) implies self.shown(t, r, m, upward) by {
                assert(upward ==> p(r as int));
                assert(!upward ==> c(r as int));
                assert(list.contains(r as int as u32));
                let j = choose|j: int| 0 <= j < list.len() && list[j] == r;
                assert(!self.passes(list[j], upward));
            }
        }
    }

    /// The recipe makes the material, on the way up, or takes it, on the way down.
    pub open spec fn next_to(self, r: RecipeId, m: MaterialId, upward: bool) -> bool {
        r < self.g.r_count() && if upward {
            self.g.produces(r as int, m)
        } else {
            self.g.consumes(r as int, m)
        }
    }

    /// The recipe can be planned with, takes nothing apart where that is not wanted,
    /// and has something beyond it.
    pub open spec fn worth_showing(self, r: RecipeId, upward: bool) -> bool {
        let node = self.g.recipes@[r as int];
        &&& self.g.plannable@[r as int]
        &&& self.g.recycling_spec(r) ==> !self.exclude_recycling
        &&& if upward {
            node.inputs@.len() > 0
        } else {
            node.outputs@.len() > 0
        }
    }
}

proof fn primaries_are(slots: Seq<Slot>, n: int, k: int) -> (s: int)
    requires
        0 <= n <= slots.len(),
        0 <= k < primaries_to(slots, n).len(),
    ensures
        0 <= s < n,
        slots[s].alts@.len() > 0,
        slots[s].alts@[0] == primaries_to(slots, n)[k],
    decreases n,
{
    if n > 0 && k < primaries_to(slots, n - 1).len() {
        primaries_are(slots, n - 1, k)
    } else {
        n - 1
    }
}

proof fn primary_at(slots: Seq<Slot>, n: int, s: int) -> (k: int)
    requires
        0 <= s < n <= slots.len(),
        slots[s].alts@.len() > 0,
    ensures
        0 <= k < primaries_to(slots, n).len() <= n,
        primaries_to(slots, n)[k] == slots[s].alts@[0],
    decreases n,
{
    few_primaries(slots, n);
    if s < n - 1 {
        primary_at(slots, n - 1, s)
    } else {
        primaries_to(slots, n - 1).len() as int
    }
}

proof fn few_primaries(slots: Seq<Slot>, n: int)
    requires
        0 <= n,
    ensures
        primaries_to(slots, n).len() <= n,
    decreases n,
{
    if n > 0 {
        few_primaries(slots, n - 1);
    }
}

proof fn quantities_ranked<A: Arithmetic>(ar: A, g: KnowledgeGraph, all: Seq<(MaterialId, u64)>)
    requires
        all.len() <= usize::MAX,
    ensures
        ({
            let ranked = crate::order::sorted(all, quantity_order(ar, g, all));
            &&& ranked.len() == all.len()
            &&& forall|i: int| 0 <= i < all.len() ==> ranked.contains(#[trigger] all[i])
            &&& forall|i: int| 0 <= i < ranked.len() ==> all.contains(#[trigger] ranked[i])
            &&& forall|i: int, j: int|
                0 <= i < j < ranked.len() ==> !ar.total_before_spec(
                    crate::util::mat_norm_spec(ar, g, (#[trigger] ranked[i]).0, ranked[i].1),
                    crate::util::mat_norm_spec(ar, g, (#[trigger] ranked[j]).0, ranked[j].1),
                )
        }),
{
    let before = quantity_order(ar, g, all);
    let n = all.len() as int;
    ar.total_before_orders();
    assert(crate::order::orders(before, n));
    crate::order::stable_order_exists(before, n);
    let ranked = crate::order::sorted(all, before);
    assert(crate::order::sorted_by(all, before, ranked)) by {
        let p = choose|p: Seq<usize>| #[trigger] crate::order::stable_order(before, n, p);
        assert(ranked == crate::order::listed(all, p));
    }
    crate::order::sorted_by_permutes(all, before, ranked);
    assert forall|i: int, j: int| 0 <= i < j < ranked.len() implies !ar.total_before_spec(
        crate::util::mat_norm_spec(ar, g, (#[trigger] ranked[i]).0, ranked[i].1),
        crate::util::mat_norm_spec(ar, g, (#[trigger] ranked[j]).0, ranked[j].1),
    ) by {
        assert(crate::order::comes_ahead(all, before, ranked[i], ranked[j]));
        let (x, y) = choose|x: int, y: int|
            0 <= x < n && 0 <= y < n && #[trigger] all[x] == ranked[i] && #[trigger] all[y]
                == ranked[j] && crate::order::ahead(before, x, y);
        assert(before(x, y) || !before(y, x));
    }
}

proof fn top_is_primary<A: Arithmetic>(
    ar: A,
    g: KnowledgeGraph,
    slots: Seq<Slot>,
    limit: usize,
    k: int,
)
    requires
        slots.len() <= usize::MAX,
        0 <= k < top_of(ar, g, slots, limit).len(),
    ensures
        exists|s: int|
            0 <= s < slots.len() && (#[trigger] slots[s]).alts@.len() > 0 && slots[s].alts@[0]
                == top_of(ar, g, slots, limit)[k],
{
    let n = slots.len() as int;
    let all = primaries_to(slots, n);
    few_primaries(slots, n);
    quantities_ranked(ar, g, all);
    let ranked = crate::order::sorted(all, quantity_order(ar, g, all));
    assert(top_of(ar, g, slots, limit)[k] == ranked[k]);
    assert(all.contains(ranked[k]));
    let i = choose|i: int| 0 <= i < all.len() && all[i] == ranked[k];
    let s = primaries_are(slots, n, i);
    assert(slots[s].alts@[0] == ranked[k]);
}

/// The first candidate of every slot is shown, unless as many are shown as are
/// wanted, none of which comes in a smaller quantity.
pub proof fn greatest_are_shown<A: Arithmetic>(
    ar: A,
    g: KnowledgeGraph,
    slots: Seq<Slot>,
    limit: usize,
    s: int,
)
    requires
        slots.len() <= usize::MAX,
        0 <= s < slots.len(),
        slots[s].alts@.len() > 0,
    ensures
        ({
            let top = top_of(ar, g, slots, limit);
            let (m, q) = slots[s].alts@[0];
            top.contains((m, q)) || (top.len() == limit && forall|k: int|
                0 <= k < top.len() ==> !ar.total_before_spec(
                    crate::util::mat_norm_spec(ar, g, (#[trigger] top[k]).0, top[k].1),
                    crate::util::mat_norm_spec(ar, g, m, q),
                ))
        }),
{
    let n = slots.len() as int;
    let all = primaries_to(slots, n);
    let i = primary_at(slots, n, s);
    quantities_ranked(ar, g, all);
    let ranked = crate::order::sorted(all, quantity_order(ar, g, all));
    let top = top_of(ar, g, slots, limit);
    assert(ranked.contains(all[i]));
    let j = choose|j: int| 0 <= j < ranked.len() && ranked[j] == all[i];
    if j < limit {
        assert(top[j] == all[i]);
    } else {
        assert forall|k: int| 0 <= k < top.len() implies !ar.total_before_spec(
            crate::util::mat_norm_spec(ar, g, (#[trigger] top[k]).0, top[k].1),
            crate::util::mat_norm_spec(ar, g, ranked[j].0, ranked[j].1),
        ) by {
            assert(top[k] == ranked[k]);
        }
    }
}

/// What is asked for is kept where it lies within bounds; else the nearer bound is
/// taken. A default stands for what is not asked for.
pub proof fn bounds_are_kept(asked: Option<usize>, otherwise: usize, low: usize, high: usize)
    requires
        low <= otherwise <= high,
    ensures
        low <= crate::api::clamped(asked, otherwise, low, high) <= high,
        asked is None ==> crate::api::clamped(asked, otherwise, low, high) == otherwise,
        asked matches Some(n) ==> {
            let r = crate::api::clamped(asked, otherwise, low, high);
            forall|x: int|
                low <= x <= high ==> (if r < n {
                    n - r
                } else {
                    r - n
                }) <= #[trigger] apart(n, x)
        },
{
}

/// How far a number is from another.
pub open spec fn apart(n: usize, x: int) -> int {
    if x < n {
        n - x
    } else {
        x - n
    }
}

/// A picture that says nothing of its size reaches two recipes far and shows three
/// hundred nodes, six inputs and four outputs; recipes that recycle are left out
/// unless they are asked for.
pub proof fn pictures_have_bounds<A: Arithmetic>(
    p: crate::api::GraphParams,
    ar: &A,
    g: &KnowledgeGraph,
)
    ensures
        ({
            let a = p.around(ar, g);
            &&& p.depth is None ==> a.depth == 2
            &&& p.max_nodes is None ==> a.node_limit == 300
            &&& p.max_inputs is None ==> a.max_inputs == 6
            &&& p.max_outputs is None ==> a.max_outputs == 4
            &&& 1 <= a.depth <= 6
            &&& 10 <= a.node_limit <= 1500
            &&& 1 <= a.max_inputs <= 50
            &&& 1 <= a.max_outputs <= 50
            &&& p.depth matches Some(n) ==> (1 <= n <= 6 ==> a.depth == n)
            &&& p.max_nodes matches Some(n) ==> (10 <= n <= 1500 ==> a.node_limit == n)
            &&& p.max_inputs matches Some(n) ==> (1 <= n <= 50 ==> a.max_inputs == n)
            &&& p.max_outputs matches Some(n) ==> (1 <= n <= 50 ==> a.max_outputs == n)
            &&& a.exclude_recycling <==> p.exclude_recycling is None || p.exclude_recycling->0
        }),
{
}

} // verus!

//! What a client is shown of the graph: materials, recipes, and the surroundings
//! of a material.
use std::collections::VecDeque;

use vstd::hash_map::StringHashMap;
use vstd::prelude::*;

use crate::graph::KnowledgeGraph;
use crate::list::{filled, sum_capped};
use crate::model::{MaterialId, RecipeId, Slot};
use crate::order::sort_positions;
use crate::scalar::Arithmetic;
use crate::text::{decimal_string, joined};
use crate::util::{mat_norm_qty, output_qty_of};

verus! {

/// A node of a picture of the graph.
#[derive(Debug)]
pub struct GraphNodeData {
    pub id: String,
    pub label: String,
    pub node_type: String,
    pub material_kind: Option<String>,
    pub category: Option<String>,
    pub count: Option<usize>,
    /// Full id of a material.
    pub mat_id: Option<String>,
}

/// An edge of a picture of the graph.
#[derive(Debug)]
pub struct GraphEdgeData {
    pub id: String,
    pub source: String,
    pub target: String,
    pub label: Option<String>,
}

/// The surroundings of a material.
#[derive(Debug)]
pub struct GraphView {
    pub nodes: Vec<GraphNodeData>,
    pub edges: Vec<GraphEdgeData>,
    /// There was no room for more nodes.
    pub truncated: bool,
    /// How many inputs or outputs of recipes are not shown.
    pub pruned_edges: usize,
    /// The node of the material.
    pub start: String,
}

/// A node, with its texts.
pub struct NodeText {
    pub id: Seq<char>,
    pub label: Seq<char>,
    pub node_type: Seq<char>,
    pub material_kind: Option<Seq<char>>,
    pub category: Option<Seq<char>>,
    pub count: Option<usize>,
    pub mat_id: Option<Seq<char>>,
}

/// An edge, with its texts.
pub struct EdgeText {
    pub id: Seq<char>,
    pub source: Seq<char>,
    pub target: Seq<char>,
    pub label: Option<Seq<char>>,
}

impl View for GraphNodeData {
    type V = NodeText;

    open spec fn view(&self) -> NodeText {
        NodeText {
            id: self.id@,
            label: self.label@,
            node_type: self.node_type@,
            material_kind: crate::graph::text_of(self.material_kind),
            category: crate::graph::text_of(self.category),
            count: self.count,
            mat_id: crate::graph::text_of(self.mat_id),
        }
    }
}

impl View for GraphEdgeData {
    type V = EdgeText;

    open spec fn view(&self) -> EdgeText {
        EdgeText {
            id: self.id@,
            source: self.source@,
            target: self.target@,
            label: crate::graph::text_of(self.label),
        }
    }
}

/// Nodes, with their texts.
pub open spec fn node_texts(v: Seq<GraphNodeData>) -> Seq<NodeText> {
    v.map_values(|n: GraphNodeData| n@)
}

/// Edges, with their texts.
pub open spec fn edge_texts(v: Seq<GraphEdgeData>) -> Seq<EdgeText> {
    v.map_values(|e: GraphEdgeData| e@)
}

/// The id of the node of a material.
pub open spec fn material_node_id(m: MaterialId) -> Seq<char> {
    "m:"@ + crate::text::decimal(m as nat)
}

/// The id of the node of a recipe.
pub open spec fn recipe_node_id(r: RecipeId) -> Seq<char> {
    "r:"@ + crate::text::decimal(r as nat)
}

/// There is a node with this id.
pub open spec fn has_node(nodes: Seq<NodeText>, id: Seq<char>) -> bool {
    exists|i: int| 0 <= i < nodes.len() && (#[trigger] nodes[i]).id == id
}

/// There is an edge between these nodes.
pub open spec fn has_edge(edges: Seq<EdgeText>, source: Seq<char>, target: Seq<char>) -> bool {
    exists|i: int|
        0 <= i < edges.len() && (#[trigger] edges[i]).source == source && edges[i].target == target
}

/// The node of a material.
pub open spec fn material_node(g: KnowledgeGraph, m: MaterialId) -> NodeText {
    let info = g.materials@[m as int];
    NodeText {
        id: material_node_id(m),
        label: info.display@,
        node_type: "material"@,
        material_kind: Some(g.kind_text(info.key.kind)),
        category: None,
        count: None,
        mat_id: Some(g.id_text(m)),
    }
}

/// The node of a recipe.
pub open spec fn recipe_node(g: KnowledgeGraph, r: RecipeId) -> NodeText {
    let node = g.recipes@[r as int];
    NodeText {
        id: recipe_node_id(r),
        label: node.id@,
        node_type: "recipe"@,
        material_kind: None,
        category: Some(g.categories@[node.category as int].title@),
        count: Some(node.inputs@.len() as usize),
        mat_id: None,
    }
}

/// The nodes with one more, if its id is new.
pub open spec fn with_node(nodes: Seq<NodeText>, n: NodeText) -> Seq<NodeText> {
    if has_node(nodes, n.id) {
        nodes
    } else {
        nodes.push(n)
    }
}

/// The edges with one more, if it is new.
pub open spec fn with_edge(
    edges: Seq<EdgeText>,
    source: Seq<char>,
    target: Seq<char>,
    label: Option<Seq<char>>,
) -> Seq<EdgeText> {
    if has_edge(edges, source, target) {
        edges
    } else {
        edges.push(EdgeText { id: "e:"@ + source + ">"@ + target, source, target, label })
    }
}

/// The label of a quantity: mB of a fluid, pieces of anything else; nothing has
/// none.
pub open spec fn quantity_label(g: KnowledgeGraph, m: MaterialId, qty: u64) -> Option<Seq<char>> {
    if qty == 0 {
        None
    } else if g.materials@[m as int].key.kind is Fluid {
        Some(crate::text::decimal(qty as nat) + "mB"@)
    } else {
        Some("x"@ + crate::text::decimal(qty as nat))
    }
}

/// The first candidates of the first `k` slots.
pub open spec fn primaries_to(slots: Seq<Slot>, k: int) -> Seq<(MaterialId, u64)>
    decreases k,
{
    if k <= 0 {
        Seq::empty()
    } else {
        match slots[k - 1].primary_spec() {
            Some(p) => primaries_to(slots, k - 1).push(p),
            None => primaries_to(slots, k - 1),
        }
    }
}

/// Greater quantities first.
pub open spec fn quantity_order<A: Arithmetic>(
    ar: A,
    g: KnowledgeGraph,
    s: Seq<(MaterialId, u64)>,
) -> spec_fn(int, int) -> bool {
    |i: int, j: int|
        ar.total_before_spec(
            crate::util::mat_norm_spec(ar, g, s[j].0, s[j].1),
            crate::util::mat_norm_spec(ar, g, s[i].0, s[i].1),
        )
}

/// The greatest first candidates of slots, at most `limit`.
pub open spec fn top_of<A: Arithmetic>(ar: A, g: KnowledgeGraph, slots: Seq<Slot>, limit: usize) -> Seq<
    (MaterialId, u64),
> {
    let all = primaries_to(slots, slots.len() as int);
    crate::planner::beam::first_of(
        crate::order::sorted(all, quantity_order(ar, g, all)),
        limit as int,
    )
}

/// How many of them are left out.
pub open spec fn left_out(slots: Seq<Slot>, limit: usize) -> usize {
    let n = primaries_to(slots, slots.len() as int).len();
    if n > limit {
        (n - limit) as usize
    } else {
        0
    }
}

/// The last quantity of a material among the first `k` candidates of a slot.
pub open spec fn last_among(alts: Seq<(MaterialId, u64)>, m: MaterialId, first: u64, k: int) -> u64
    decreases k,
{
    if k <= 0 {
        first
    } else if alts[k - 1].0 == m {
        alts[k - 1].1
    } else {
        last_among(alts, m, first, k - 1)
    }
}

/// The last quantity of a material in the first `s` slots; nothing where there is
/// none.
pub open spec fn last_qty(slots: Seq<Slot>, m: MaterialId, s: int) -> u64
    decreases s,
{
    if s <= 0 {
        0
    } else {
        let alts = slots[s - 1].alts@;
        last_among(alts, m, last_qty(slots, m, s - 1), alts.len() as int)
    }
}

/// What is asked of a picture of the graph.
pub struct Around<'a, A> {
    pub ar: &'a A,
    pub g: &'a KnowledgeGraph,
    /// How many recipes the picture reaches.
    pub depth: usize,
    pub node_limit: usize,
    /// How many inputs of a recipe are shown.
    pub max_inputs: usize,
    /// How many outputs of a recipe are shown.
    pub max_outputs: usize,
    pub exclude_recycling: bool,
}

/// A picture on its way.
#[verifier::ext_equal]
pub struct Walk {
    pub nodes: Seq<NodeText>,
    pub edges: Seq<EdgeText>,
    /// Materials whose recipes are looked at next: how far they are from the
    /// start, and whether their producers or their consumers are looked at.
    pub queue: Seq<(MaterialId, usize, bool)>,
    /// The materials that were met on the way up.
    pub up: Seq<bool>,
    /// The materials that were met on the way down.
    pub down: Seq<bool>,
    pub truncated: bool,
    pub pruned: usize,
    /// Nothing more is looked at.
    pub stopped: bool,
}

impl Walk {
    /// A material is met; its recipes are looked at once in each direction.
    pub open spec fn meets(self, m: MaterialId, far: usize, upward: bool) -> Walk {
        let seen = if upward {
            self.up[m as int]
        } else {
            self.down[m as int]
        };
        if seen {
            self
        } else {
            Walk {
                queue: self.queue.push((m, far, upward)),
                up: if upward {
                    self.up.update(m as int, true)
                } else {
                    self.up
                },
                down: if upward {
                    self.down
                } else {
                    self.down.update(m as int, true)
                },
                ..self
            }
        }
    }

    pub open spec fn done(self) -> bool {
        self.stopped || self.queue.len() == 0
    }
}

impl<'a, A: Arithmetic> Around<'a, A> {
    /// The first `k` of the materials that a recipe takes or gives are shown and
    /// met.
    pub open spec fn show_to(
        self,
        w: Walk,
        r: RecipeId,
        list: Seq<(MaterialId, u64)>,
        far: usize,
        upward: bool,
        k: int,
    ) -> Walk
        decreases k,
    {
        if k <= 0 {
            w
        } else {
            let t = self.show_to(w, r, list, far, upward, k - 1);
            let (m, q) = list[k - 1];
            let label = quantity_label(*self.g, m, q);
            (Walk {
                nodes: with_node(t.nodes, material_node(*self.g, m)),
                edges: if upward {
                    with_edge(t.edges, material_node_id(m), recipe_node_id(r), label)
                } else {
                    with_edge(t.edges, recipe_node_id(r), material_node_id(m), label)
                },
                ..t
            }).meets(m, far, upward)
        }
    }

    /// The recipe is passed over.
    pub open spec fn passes(self, r: RecipeId, upward: bool) -> bool {
        let node = self.g.recipes@[r as int];
        ||| !self.g.plannable@[r as int]
        ||| self.exclude_recycling && self.g.recycling_spec(r)
        ||| upward && node.inputs@.len() == 0
        ||| !upward && node.outputs@.len() == 0
    }

    /// A recipe that produces or consumes material `m` is looked at.
    pub open spec fn look(self, w: Walk, r: RecipeId, m: MaterialId, far: usize, upward: bool) -> Walk {
        let node = self.g.recipes@[r as int];
        if w.stopped || self.passes(r, upward) {
            w
        } else if w.nodes.len() >= self.node_limit {
            Walk { truncated: true, stopped: true, ..w }
        } else {
            let nodes = with_node(w.nodes, recipe_node(*self.g, r));
            let qty = if upward {
                match crate::util::qty_in(node.outputs@, m) {
                    Some(q) => q,
                    None => 0,
                }
            } else {
                last_qty(node.inputs@, m, node.inputs@.len() as int)
            };
            let label = quantity_label(*self.g, m, qty);
            let edges = if upward {
                with_edge(w.edges, recipe_node_id(r), material_node_id(m), label)
            } else {
                with_edge(w.edges, material_node_id(m), recipe_node_id(r), label)
            };
            let slots = if upward {
                node.inputs@
            } else {
                node.outputs@
            };
            let limit = if upward {
                self.max_inputs
            } else {
                self.max_outputs
            };
            let list = top_of(*self.ar, *self.g, slots, limit);
            self.show_to(
                Walk {
                    nodes,
                    edges,
                    pruned: crate::list::capped(w.pruned, left_out(slots, limit)),
                    ..w
                },
                r,
                list,
                crate::list::capped(far, 1),
                upward,
                list.len() as int,
            )
        }
    }

    /// The first `k` recipes of a list are looked at.
    pub open spec fn look_to(
        self,
        w: Walk,
        list: Seq<RecipeId>,
        m: MaterialId,
        far: usize,
        upward: bool,
        k: int,
    ) -> Walk
        decreases k,
    {
        if k <= 0 {
            w
        } else {
            self.look(self.look_to(w, list, m, far, upward, k - 1), list[k - 1], m, far, upward)
        }
    }

    /// One step: the recipes of the next material are looked at.
    pub open spec fn step(self, w: Walk) -> Walk {
        let (m, far, upward) = w.queue[0];
        let t = Walk { queue: w.queue.drop_first(), ..w };
        if w.nodes.len() >= self.node_limit {
            Walk { truncated: true, stopped: true, ..t }
        } else if far >= self.depth {
            t
        } else {
            let list = if upward {
                self.g.producers@[m as int]@
            } else {
                self.g.consumers@[m as int]@
            };
            self.look_to(t, list, m, far, upward, list.len() as int)
        }
    }

    /// The picture before the first step.
    pub open spec fn first(self, start: MaterialId, up: bool, down: bool) -> Walk {
        let none = Seq::new(self.g.materials@.len(), |i: int| false);
        let w = Walk {
            nodes: seq![material_node(*self.g, start)],
            edges: Seq::empty(),
            queue: Seq::empty(),
            up: none,
            down: none,
            truncated: false,
            pruned: 0,
            stopped: false,
        };
        let v = if up {
            w.meets(start, 0, true)
        } else {
            w
        };
        if down {
            v.meets(start, 0, false)
        } else {
            v
        }
    }

    /// The picture after `k` steps, or fewer if it is done.
    pub open spec fn after(self, w: Walk, k: nat) -> Walk
        decreases k,
    {
        if k == 0 || w.done() {
            w
        } else {
            self.after(self.step(w), (k - 1) as nat)
        }
    }

    /// The picture shows the surroundings of a material.
    pub open spec fn shows(self, start: MaterialId, up: bool, down: bool, v: GraphView) -> bool {
        exists|k: nat|
            ({
                let w = #[trigger] self.after(self.first(start, up, down), k);
                &&& w.done()
                &&& node_texts(v.nodes@) == w.nodes
                &&& edge_texts(v.edges@) == w.edges
                &&& v.truncated == w.truncated
                &&& v.pruned_edges == w.pruned
                &&& v.start@ == material_node_id(start)
            })
    }
}

/// How many are false.
pub open spec fn unmet(s: Seq<bool>) -> nat
    decreases s.len(),
{
    if s.len() == 0 {
        0
    } else {
        unmet(s.drop_last()) + if s.last() {
            0nat
        } else {
            1nat
        }
    }
}

proof fn unmet_less(s: Seq<bool>, i: int)
    requires
        0 <= i < s.len(),
        !s[i],
    ensures
        unmet(s.update(i, true)) + 1 == unmet(s),
    decreases s.len(),
{
    let t = s.update(i, true);
    if i == s.len() - 1 {
        assert(t.drop_last() =~= s.drop_last());
    } else {
        assert(t.drop_last() =~= s.drop_last().update(i, true));
        unmet_less(s.drop_last(), i);
    }
}

/// Pairs of texts.
pub struct PairSet {
    pub outer: StringHashMap<usize>,
    pub inner: Vec<StringHashMap<bool>>,
}

impl PairSet {
    /// The pair is there.
    pub open spec fn has(self, a: Seq<char>, b: Seq<char>) -> bool {
        self.outer@.contains_key(a) && self.inner@[self.outer@[a] as int]@.contains_key(b)
    }

    /// Each first text has a set of second texts of its own.
    pub open spec fn wf(self) -> bool {
        &&& forall|a: Seq<char>| #[trigger]
            self.outer@.contains_key(a) ==> self.outer@[a] < self.inner@.len()
        &&& forall|a: Seq<char>, b: Seq<char>| #[trigger]
            self.outer@.contains_key(a) && #[trigger] self.outer@.contains_key(b)
                && self.outer@[a] == self.outer@[b] ==> a == b
    }

    pub fn new() -> (r: Self)
        ensures
            r.wf(),
            forall|a: Seq<char>, b: Seq<char>| !#[trigger] r.has(a, b),
    {
        PairSet { outer: StringHashMap::new(), inner: Vec::new() }
    }

    /// Adds a pair; returns if it is new.
    pub fn insert(&mut self, a: &str, b: &str) -> (r: bool)
        requires
            old(self).wf(),
        ensures
            final(self).wf(),
            r == !old(self).has(a@, b@),
            forall|x: Seq<char>, y: Seq<char>| #[trigger]
                final(self).has(x, y) <==> old(self).has(x, y) || (x == a@ && y == b@),
    {
        let at: usize = match self.outer.get(a) {
            Some(at) => *at,
            None => {
                let at: usize = self.inner.len();
                self.outer.insert(a.to_owned(), at);
                self.inner.push(StringHashMap::new());
                at
            },
        };
        let ghost before = *self;
        assert(before.wf());
        assert(forall|x: Seq<char>, y: Seq<char>|
            #[trigger] before.has(x, y) <==> old(self).has(x, y));
        if self.inner[at].contains_key(b) {
            return false;
        }
        self.inner[at].insert(b.to_owned(), true);
        assert forall|x: Seq<char>, y: Seq<char>| #[trigger] self.has(x, y) <==> old(self).has(x, y)
            || (x == a@ && y == b@) by {
            assert(before.has(x, y) <==> old(self).has(x, y));
            if self.outer@.contains_key(x) && x != a@ {
                assert(self.outer@[x] != at);
            }
        }
        true
    }
}

/// The nodes and edges of a picture, and which of them are there.
pub struct Picture {
    pub nodes: Vec<GraphNodeData>,
    pub edges: Vec<GraphEdgeData>,
    pub seen_nodes: StringHashMap<bool>,
    pub seen_edges: PairSet,
}

impl Picture {
    /// What is seen is what is there.
    pub open spec fn wf(self) -> bool {
        &&& self.seen_edges.wf()
        &&& forall|id: Seq<char>| #[trigger]
            self.seen_nodes@.contains_key(id) <==> has_node(node_texts(self.nodes@), id)
        &&& forall|a: Seq<char>, b: Seq<char>| #[trigger]
            self.seen_edges.has(a, b) <==> has_edge(edge_texts(self.edges@), a, b)
    }

    pub fn new() -> (r: Self)
        ensures
            r.wf(),
            r.nodes@.len() == 0,
            r.edges@.len() == 0,
    {
        Picture {
            nodes: Vec::new(),
            edges: Vec::new(),
            seen_nodes: StringHashMap::new(),
            seen_edges: PairSet::new(),
        }
    }

    /// Adds a node unless its id is there; returns if it is new.
    fn add_node(&mut self, n: GraphNodeData) -> (r: bool)
        requires
            old(self).wf(),
        ensures
            final(self).wf(),
            r == !has_node(node_texts(old(self).nodes@), n@.id),
            node_texts(final(self).nodes@) == with_node(node_texts(old(self).nodes@), n@),
            final(self).edges == old(self).edges,
    {
        if self.seen_nodes.contains_key(n.id.as_str()) {
            return false;
        }
        let ghost before = node_texts(self.nodes@);
        let ghost text = n@;
        self.seen_nodes.insert(n.id.clone(), true);
        self.nodes.push(n);
        proof {
            assert(node_texts(self.nodes@) =~= before.push(text));
            assert forall|id: Seq<char>| has_node(before.push(text), id) <==> has_node(before, id)
                || id == text.id by {
                node_pushed(before, text, id);
            }
        }
        true
    }

    /// Adds the node of a material; returns if it is new.
    pub fn add_material_node(&mut self, g: &KnowledgeGraph, m: MaterialId) -> (r: bool)
        requires
            old(self).wf(),
            g.keyed(),
            m < g.m_count(),
        ensures
            final(self).wf(),
            r == !has_node(node_texts(old(self).nodes@), material_node_id(m)),
            node_texts(final(self).nodes@) == with_node(
                node_texts(old(self).nodes@),
                material_node(*g, m),
            ),
            final(self).edges == old(self).edges,
    {
        let info = g.material(m);
        assert(g.key_ok(info.key));
        self.add_node(
            GraphNodeData {
                id: material_name(m),
                label: info.display.clone(),
                node_type: "material".to_owned(),
                material_kind: Some(g.kind_str(info.key.kind).to_owned()),
                category: None,
                count: None,
                mat_id: Some(g.material_id_str(m).to_owned()),
            },
        )
    }

    /// Adds the node of a recipe; returns if it is new.
    pub fn add_recipe_node(&mut self, g: &KnowledgeGraph, rid: RecipeId) -> (r: bool)
        requires
            old(self).wf(),
            g.closed(),
            rid < g.r_count(),
        ensures
            final(self).wf(),
            r == !has_node(node_texts(old(self).nodes@), recipe_node_id(rid)),
            node_texts(final(self).nodes@) == with_node(
                node_texts(old(self).nodes@),
                recipe_node(*g, rid),
            ),
            final(self).edges == old(self).edges,
    {
        let r = g.recipe(rid);
        self.add_node(
            GraphNodeData {
                id: recipe_name(rid),
                label: r.id.clone(),
                node_type: "recipe".to_owned(),
                material_kind: None,
                category: Some(g.category(r.category).title.clone()),
                count: Some(r.inputs.len()),
                mat_id: None,
            },
        )
    }

    /// Adds an edge unless there is one between the nodes.
    pub fn add_graph_edge(&mut self, source: String, target: String, label: Option<String>)
        requires
            old(self).wf(),
        ensures
            final(self).wf(),
            edge_texts(final(self).edges@) == with_edge(
                edge_texts(old(self).edges@),
                source@,
                target@,
                crate::graph::text_of(label),
            ),
            final(self).nodes == old(self).nodes,
    {
        let ghost before = edge_texts(self.edges@);
        if !self.seen_edges.insert(source.as_str(), target.as_str()) {
            return;
        }
        let head = joined(joined("e:", source.as_str()).as_str(), ">");
        let e = GraphEdgeData { id: joined(head.as_str(), target.as_str()), source, target, label };
        let ghost text = e@;
        self.edges.push(e);
        proof {
            assert(edge_texts(self.edges@) =~= before.push(text));
            assert forall|a: Seq<char>, b: Seq<char>|
                has_edge(before.push(text), a, b) <==> has_edge(before, a, b) || (a == text.source
                    && b == text.target) by {
                edge_pushed(before, text, a, b);
            }
        }
    }
}

proof fn node_pushed(nodes: Seq<NodeText>, n: NodeText, id: Seq<char>)
    ensures
        has_node(nodes.push(n), id) <==> has_node(nodes, id) || id == n.id,
{
    let more = nodes.push(n);
    if has_node(nodes, id) {
        let i = choose|i: int| 0 <= i < nodes.len() && (#[trigger] nodes[i]).id == id;
        assert(more[i].id == id);
    }
    if id == n.id {
        assert(more[nodes.len() as int].id == id);
    }
    if has_node(more, id) && id != n.id {
        let i = choose|i: int| 0 <= i < more.len() && (#[trigger] more[i]).id == id;
        assert(nodes[i].id == id);
    }
}

proof fn edge_pushed(edges: Seq<EdgeText>, e: EdgeText, a: Seq<char>, b: Seq<char>)
    ensures
        has_edge(edges.push(e), a, b) <==> has_edge(edges, a, b) || (a == e.source && b == e.target),
{
    let more = edges.push(e);
    if has_edge(edges, a, b) {
        let i = choose|i: int|
            0 <= i < edges.len() && (#[trigger] edges[i]).source == a && edges[i].target == b;
        assert(more[i].source == a);
    }
    if a == e.source && b == e.target {
        assert(more[edges.len() as int].source == a);
    }
    if has_edge(more, a, b) && !(a == e.source && b == e.target) {
        let i = choose|i: int|
            0 <= i < more.len() && (#[trigger] more[i]).source == a && more[i].target == b;
        assert(edges[i].source == a);
    }
}

fn material_name(m: MaterialId) -> (r: String)
    ensures
        r@ == material_node_id(m),
{
    joined("m:", decimal_string(m as u64).as_str())
}

fn recipe_name(rid: RecipeId) -> (r: String)
    ensures
        r@ == recipe_node_id(rid),
{
    joined("r:", decimal_string(rid as u64).as_str())
}

/// The label of a quantity of a material: mB of a fluid, pieces of anything else;
/// nothing has no label.
pub fn qty_label(g: &KnowledgeGraph, m: MaterialId, qty: u64) -> (r: Option<String>)
    requires
        m < g.m_count(),
    ensures
        crate::graph::text_of(r) == quantity_label(*g, m, qty),
{
    if qty == 0 {
        return None;
    }
    if g.material(m).key.kind.is_fluid() {
        Some(joined(decimal_string(qty).as_str(), "mB"))
    } else {
        Some(joined("x", decimal_string(qty).as_str()))
    }
}

/// The first candidates of slots by quantity, the greatest first and at most
/// `limit`, and how many are left out.
pub fn top_primaries<A: Arithmetic>(ar: &A, g: &KnowledgeGraph, slots: &Vec<Slot>, limit: usize) -> (r: (
    Vec<(MaterialId, u64)>,
    usize,
))
    requires
        crate::graph::slots_ok(slots@, g.m_count()),
    ensures
        r.0@ == top_of(*ar, *g, slots@, limit),
        r.1 == left_out(slots@, limit),
        r.0@.len() <= limit,
        forall|i: int| 0 <= i < r.0@.len() ==> (#[trigger] r.0@[i]).0 < g.m_count(),
{
    let mut all: Vec<(MaterialId, u64)> = Vec::new();
    let mut k: usize = 0;
    while k < slots.len()
        invariant
            k <= slots@.len(),
            crate::graph::slots_ok(slots@, g.m_count()),
            all@ == primaries_to(slots@, k as int),
            forall|i: int| 0 <= i < all@.len() ==> (#[trigger] all@[i]).0 < g.m_count(),
        decreases slots@.len() - k,
    {
        assert(crate::graph::slot_ok(slots@[k as int], g.m_count()));
        match slots[k].primary() {
            Some(p) => {
                all.push(p);
            },
            None => {},
        }
        k += 1;
    }
    let ghost before = quantity_order(*ar, *g, all@);
    proof {
        ar.total_before_orders();
    }
    let less = |i: usize, j: usize| -> (b: bool)
        requires
            i < all@.len() && j < all@.len(),
            forall|k: int| 0 <= k < all@.len() ==> (#[trigger] all@[k]).0 < g.m_count(),
        ensures
            b == ar.total_before_spec(
                crate::util::mat_norm_spec(*ar, *g, all@[j as int].0, all@[j as int].1),
                crate::util::mat_norm_spec(*ar, *g, all@[i as int].0, all@[i as int].1),
            ),
        {
            ar.total_before(
                mat_norm_qty(ar, g, all[j].0, all[j].1),
                mat_norm_qty(ar, g, all[i].0, all[i].1),
            )
        };
    let p = sort_positions(all.len(), less, Ghost(before));
    let ghost ranked = crate::order::listed(all@, p@);
    proof {
        crate::order::sorted_is(all@, before, p@);
    }
    let mut r: Vec<(MaterialId, u64)> = Vec::new();
    let mut i: usize = 0;
    while i < p.len() && i < limit
        invariant
            i <= p@.len(),
            i <= limit,
            crate::order::stable_order(before, all@.len() as int, p@),
            ranked == crate::order::listed(all@, p@),
            r@ == ranked.take(i as int),
            forall|k: int| 0 <= k < all@.len() ==> (#[trigger] all@[k]).0 < g.m_count(),
            forall|k: int| 0 <= k < r@.len() ==> (#[trigger] r@[k]).0 < g.m_count(),
        decreases p@.len() - i,
    {
        r.push(all[p[i]]);
        assert(r@ =~= ranked.take(i + 1));
        i += 1;
    }
    let out: usize = if all.len() > limit {
        all.len() - limit
    } else {
        0
    };
    (r, out)
}

/// The last quantity of a material in the slots of a recipe; nothing where it is
/// in none.
pub fn last_quantity(slots: &Vec<Slot>, m: MaterialId) -> (r: u64)
    ensures
        r == last_qty(slots@, m, slots@.len() as int),
{
    let mut qty: u64 = 0;
    let mut s: usize = 0;
    while s < slots.len()
        invariant
            s <= slots@.len(),
            qty == last_qty(slots@, m, s as int),
        decreases slots@.len() - s,
    {
        let alts = &slots[s].alts;
        let ghost first = qty;
        let mut a: usize = 0;
        while a < alts.len()
            invariant
                a <= alts@.len(),
                qty == last_among(alts@, m, first, a as int),
            decreases alts@.len() - a,
        {
            if alts[a].0 == m {
                qty = alts[a].1;
            }
            a += 1;
        }
        s += 1;
    }
    qty
}

/// A picture that is being drawn.
pub struct Walking {
    pub picture: Picture,
    pub queue: VecDeque<(MaterialId, usize, bool)>,
    pub up: Vec<bool>,
    pub down: Vec<bool>,
    pub truncated: bool,
    pub pruned: usize,
    pub stopped: bool,
}

impl View for Walking {
    type V = Walk;

    open spec fn view(&self) -> Walk {
        Walk {
            nodes: node_texts(self.picture.nodes@),
            edges: edge_texts(self.picture.edges@),
            queue: self.queue@,
            up: self.up@,
            down: self.down@,
            truncated: self.truncated,
            pruned: self.pruned,
            stopped: self.stopped,
        }
    }
}

impl Walking {
    /// The picture and the lists fit `n` materials.
    pub open spec fn wf(self, n: int) -> bool {
        &&& self.picture.wf()
        &&& self.up@.len() == n
        &&& self.down@.len() == n
        &&& forall|i: int| 0 <= i < self.queue@.len() ==> (#[trigger] self.queue@[i]).0 < n
    }

    /// A material is met; its recipes are looked at once in each direction.
    fn meet(&mut self, m: MaterialId, far: usize, upward: bool)
        requires
            old(self).wf(old(self).up@.len() as int),
            m < old(self).up@.len(),
        ensures
            final(self).wf(old(self).up@.len() as int),
            final(self)@ == old(self)@.meets(m, far, upward),
            final(self)@.weight() == old(self)@.weight(),
            final(self).picture == old(self).picture,
    {
        if upward {
            if !self.up[m as usize] {
                proof {
                    unmet_less(self.up@, m as int);
                }
                self.up.set(m as usize, true);
                self.queue.push_back((m, far, upward));
            }
        } else if !self.down[m as usize] {
            proof {
                unmet_less(self.down@, m as int);
            }
            self.down.set(m as usize, true);
            self.queue.push_back((m, far, upward));
        }
    }
}

impl Walk {
    /// How much is left to look at, at most.
    pub open spec fn weight(self) -> nat {
        self.queue.len() + unmet(self.up) + unmet(self.down)
    }
}

impl<'a, A: Arithmetic> Around<'a, A> {
    /// The materials that a recipe takes or gives are shown and met.
    fn show(
        &self,
        w: &mut Walking,
        rid: RecipeId,
        list: &Vec<(MaterialId, u64)>,
        far: usize,
        upward: bool,
    )
        requires
            self.g.wf(),
            old(w).wf(self.g.m_count()),
            forall|i: int| 0 <= i < list@.len() ==> (#[trigger] list@[i]).0 < self.g.m_count(),
        ensures
            final(w).wf(self.g.m_count()),
            final(w)@ == self.show_to(old(w)@, rid, list@, far, upward, list@.len() as int),
            final(w)@.weight() == old(w)@.weight(),
    {
        let ghost start = w@;
        let mut k: usize = 0;
        while k < list.len()
            invariant
                k <= list@.len(),
                self.g.wf(),
                start == old(w)@,
                w.wf(self.g.m_count()),
                forall|i: int| 0 <= i < list@.len() ==> (#[trigger] list@[i]).0 < self.g.m_count(),
                w@ == self.show_to(start, rid, list@, far, upward, k as int),
                w@.weight() == start.weight(),
            decreases list@.len() - k,
        {
            let (m, q): (MaterialId, u64) = list[k];
            let ghost t = w@;
            assert(list@[k as int].0 < self.g.m_count());
            w.picture.add_material_node(self.g, m);
            let label = qty_label(self.g, m, q);
            if upward {
                w.picture.add_graph_edge(material_name(m), recipe_name(rid), label);
            } else {
                w.picture.add_graph_edge(recipe_name(rid), material_name(m), label);
            }
            w.meet(m, far, upward);
            k += 1;
        }
    }

    /// A recipe that produces or consumes material `m` is looked at.
    fn look_at(&self, w: &mut Walking, rid: RecipeId, m: MaterialId, far: usize, upward: bool)
        requires
            self.g.wf(),
            old(w).wf(self.g.m_count()),
            rid < self.g.r_count(),
            m < self.g.m_count(),
        ensures
            final(w).wf(self.g.m_count()),
            final(w)@ == self.look(old(w)@, rid, m, far, upward),
            final(w)@.weight() == old(w)@.weight(),
    {
        if w.stopped || !self.g.is_plannable(rid) || (self.exclude_recycling && self.g.is_recycling(
            rid,
        )) {
            return;
        }
        let r = self.g.recipe(rid);
        if (upward && r.inputs.len() == 0) || (!upward && r.outputs.len() == 0) {
            return;
        }
        if w.picture.nodes.len() >= self.node_limit {
            w.truncated = true;
            w.stopped = true;
            return;
        }
        w.picture.add_recipe_node(self.g, rid);
        let (slots, limit) = if upward {
            let qty: u64 = match output_qty_of(r, m) {
                Some(q) => q,
                None => 0,
            };
            let label = qty_label(self.g, m, qty);
            w.picture.add_graph_edge(recipe_name(rid), material_name(m), label);
            (&r.inputs, self.max_inputs)
        } else {
            let qty: u64 = last_quantity(&r.inputs, m);
            let label = qty_label(self.g, m, qty);
            w.picture.add_graph_edge(material_name(m), recipe_name(rid), label);
            (&r.outputs, self.max_outputs)
        };
        let (list, out): (Vec<(MaterialId, u64)>, usize) = top_primaries(
            self.ar,
            self.g,
            slots,
            limit,
        );
        w.pruned = sum_capped(w.pruned, out);
        self.show(w, rid, &list, sum_capped(far, 1), upward);
    }

    /// The recipes of the next material are looked at.
    fn advance(&self, w: &mut Walking)
        requires
            self.g.wf(),
            old(w).wf(self.g.m_count()),
            !old(w)@.done(),
        ensures
            final(w).wf(self.g.m_count()),
            final(w)@ == self.step(old(w)@),
            final(w)@.weight() + 1 == old(w)@.weight(),
    {
        let ghost start = w@;
        let (m, far, upward): (MaterialId, usize, bool) = match w.queue.pop_front() {
            Some(next) => next,
            None => {
                return;
            },
        };
        let ghost t = w@;
        assert(t == Walk { queue: start.queue.drop_first(), ..start });
        if w.picture.nodes.len() >= self.node_limit {
            w.truncated = true;
            w.stopped = true;
            return;
        }
        if far >= self.depth {
            return;
        }
        let list = if upward {
            &self.g.producers[m as usize]
        } else {
            &self.g.consumers[m as usize]
        };
        proof {
            assert(crate::graph::lists(
                self.g.producers@[m as int]@,
                self.g.r_count(),
                |r: int| self.g.produces(r, m as int as u32),
            ));
            assert(crate::graph::lists(
                self.g.consumers@[m as int]@,
                self.g.r_count(),
                |r: int| self.g.consumes(r, m as int as u32),
            ));
        }
        let mut k: usize = 0;
        while k < list.len()
            invariant
                k <= list@.len(),
                self.g.wf(),
                m < self.g.m_count(),
                w.wf(self.g.m_count()),
                forall|i: int| 0 <= i < list@.len() ==> #[trigger] list@[i] < self.g.r_count(),
                w@ == self.look_to(t, list@, m, far, upward, k as int),
                w@.weight() == t.weight(),
            decreases list@.len() - k,
        {
            self.look_at(w, list[k], m, far, upward);
            k += 1;
        }
    }

    /// Draws the surroundings of a material: the recipes that produce it and what
    /// they take, the recipes that consume it and what they give, and so on, as
    /// far as the depth and the number of nodes allow.
    ///
    /// No two nodes have one id, no two edges lead from one node to another, and
    /// an edge leads from node to node.
    pub fn draw(&self, start: MaterialId, up: bool, down: bool) -> (v: GraphView)
        requires
            self.g.wf(),
            start < self.g.m_count(),
        ensures
            self.shows(start, up, down, v),
            tidy(node_texts(v.nodes@), edge_texts(v.edges@)),
            self.bounded(node_texts(v.nodes@)),
    {
        let n: usize = self.g.materials.len();
        let mut w = Walking {
            picture: Picture::new(),
            queue: VecDeque::new(),
            up: filled(n, false),
            down: filled(n, false),
            truncated: false,
            pruned: 0,
            stopped: false,
        };
        w.picture.add_material_node(self.g, start);
        if up {
            w.meet(start, 0, true);
        }
        if down {
            w.meet(start, 0, false);
        }
        let ghost first = self.first(start, up, down);
        assert(w@ == first) by {
            let none = Seq::new(n as nat, |i: int| false);
            let empty: Seq<NodeText> = Seq::empty();
            assert(with_node(empty, material_node(*self.g, start)) =~= seq![
                material_node(*self.g, start),
            ]);
        }
        let ghost mut k: nat = 0;
        while !w.stopped && w.queue.len() > 0
            invariant
                self.g.wf(),
                w.wf(self.g.m_count()),
                first == self.first(start, up, down),
                start < self.g.m_count(),
                w@ == self.after(first, k),
            decreases w@.weight(),
        {
            self.advance(&mut w);
            proof {
                self.one_more(first, k);
                k = k + 1;
            }
        }
        proof {
            self.stays_tidy(start, up, down, k);
        }
        GraphView {
            nodes: w.picture.nodes,
            edges: w.picture.edges,
            truncated: w.truncated,
            pruned_edges: w.pruned,
            start: material_name(start),
        }
    }

    proof fn one_more(self, w: Walk, k: nat)
        requires
            !self.after(w, k).done(),
        ensures
            self.after(w, k + 1) == self.step(self.after(w, k)),
        decreases k,
    {
        reveal_with_fuel(Around::after, 2);
        if k > 0 {
            if w.done() {
            } else {
                self.one_more(self.step(w), (k - 1) as nat);
            }
        }
    }
}

/// No two nodes have one id, no two edges lead from one node to another, and an
/// edge leads from node to node.
pub open spec fn tidy(nodes: Seq<NodeText>, edges: Seq<EdgeText>) -> bool {
    &&& forall|i: int, j: int|
        0 <= i < j < nodes.len() ==> (#[trigger] nodes[i]).id != (#[trigger] nodes[j]).id
    &&& forall|i: int, j: int|
        0 <= i < j < edges.len() ==> (#[trigger] edges[i]).source != (#[trigger] edges[j]).source
            || edges[i].target != edges[j].target
    &&& forall|i: int|
        0 <= i < edges.len() ==> has_node(nodes, (#[trigger] edges[i]).source) && has_node(
            nodes,
            edges[i].target,
        )
}

proof fn node_kept(nodes: Seq<NodeText>, edges: Seq<EdgeText>, n: NodeText)
    requires
        tidy(nodes, edges),
    ensures
        tidy(with_node(nodes, n), edges),
        has_node(with_node(nodes, n), n.id),
        forall|id: Seq<char>| has_node(nodes, id) ==> #[trigger] has_node(with_node(nodes, n), id),
        with_node(nodes, n).len() <= nodes.len() + 1,
{
    assert forall|id: Seq<char>| has_node(nodes, id) implies #[trigger] has_node(
        with_node(nodes, n),
        id,
    ) by {
        node_pushed(nodes, n, id);
    }
    node_pushed(nodes, n, n.id);
    let more = with_node(nodes, n);
    assert forall|i: int, j: int| 0 <= i < j < more.len() implies (#[trigger] more[i]).id != (
    #[trigger] more[j]).id by {
        if j == nodes.len() {
            assert(nodes[i].id == more[i].id);
        }
    }
    assert forall|i: int| 0 <= i < edges.len() implies has_node(more, (#[trigger] edges[i]).source)
        && has_node(more, edges[i].target) by {
        node_pushed(nodes, n, edges[i].source);
        node_pushed(nodes, n, edges[i].target);
    }
}

proof fn edge_kept(
    nodes: Seq<NodeText>,
    edges: Seq<EdgeText>,
    source: Seq<char>,
    target: Seq<char>,
    label: Option<Seq<char>>,
)
    requires
        tidy(nodes, edges),
        has_node(nodes, source),
        has_node(nodes, target),
    ensures
        tidy(nodes, with_edge(edges, source, target, label)),
{
    let more = with_edge(edges, source, target, label);
    assert forall|i: int, j: int| 0 <= i < j < more.len() implies (#[trigger] more[i]).source != (
    #[trigger] more[j]).source || more[i].target != more[j].target by {
        if j == edges.len() {
            assert(edges[i] == more[i]);
        }
    }
}

impl<'a, A: Arithmetic> Around<'a, A> {
    /// There are few more nodes than the limit allows: what one recipe adds.
    pub open spec fn bounded(self, nodes: Seq<NodeText>) -> bool {
        nodes.len() <= 1 || nodes.len() <= self.node_limit + self.most()
    }

    /// How many materials of a recipe are shown, at most.
    pub open spec fn most(self) -> nat {
        if self.max_inputs < self.max_outputs {
            self.max_outputs as nat
        } else {
            self.max_inputs as nat
        }
    }

    /// The picture is tidy, and what is looked at next is in it.
    spec fn sound(self, w: Walk) -> bool {
        &&& tidy(w.nodes, w.edges)
        &&& self.bounded(w.nodes)
        &&& forall|i: int|
            0 <= i < w.queue.len() ==> has_node(
                w.nodes,
                material_node_id((#[trigger] w.queue[i]).0),
            )
    }

    proof fn shown_soundly(
        self,
        w: Walk,
        r: RecipeId,
        list: Seq<(MaterialId, u64)>,
        far: usize,
        upward: bool,
        k: int,
    )
        requires
            0 <= k <= list.len() <= self.most(),
            tidy(w.nodes, w.edges),
            w.nodes.len() <= self.node_limit,
            has_node(w.nodes, recipe_node_id(r)),
            forall|i: int|
                0 <= i < w.queue.len() ==> has_node(
                    w.nodes,
                    material_node_id((#[trigger] w.queue[i]).0),
                ),
        ensures
            ({
                let t = self.show_to(w, r, list, far, upward, k);
                &&& tidy(t.nodes, t.edges)
                &&& t.nodes.len() <= self.node_limit + k
                &&& forall|id: Seq<char>| has_node(w.nodes, id) ==> #[trigger] has_node(t.nodes, id)
                &&& forall|i: int|
                    0 <= i < t.queue.len() ==> has_node(
                        t.nodes,
                        material_node_id((#[trigger] t.queue[i]).0),
                    )
                &&& t.stopped == w.stopped
            }),
        decreases k,
    {
        if k > 0 {
            self.shown_soundly(w, r, list, far, upward, k - 1);
            let t = self.show_to(w, r, list, far, upward, k - 1);
            let (m, q) = list[k - 1];
            let n = material_node(*self.g, m);
            let label = quantity_label(*self.g, m, q);
            node_kept(t.nodes, t.edges, n);
            let nodes = with_node(t.nodes, n);
            if upward {
                edge_kept(nodes, t.edges, material_node_id(m), recipe_node_id(r), label);
            } else {
                edge_kept(nodes, t.edges, recipe_node_id(r), material_node_id(m), label);
            }
            let u = self.show_to(w, r, list, far, upward, k);
            assert(u.nodes == nodes);
            assert forall|i: int| 0 <= i < u.queue.len() implies has_node(
                u.nodes,
                material_node_id((#[trigger] u.queue[i]).0),
            ) by {
                if i < t.queue.len() {
                    assert(u.queue[i] == t.queue[i]);
                } else {
                    assert(u.queue[i].0 == m);
                }
            }
        }
    }

    proof fn looked_soundly(self, w: Walk, r: RecipeId, m: MaterialId, far: usize, upward: bool)
        requires
            self.sound(w),
            has_node(w.nodes, material_node_id(m)),
        ensures
            self.sound(self.look(w, r, m, far, upward)),
            has_node(self.look(w, r, m, far, upward).nodes, material_node_id(m)),
    {
        let node = self.g.recipes@[r as int];
        if !w.stopped && !self.passes(r, upward) && w.nodes.len() < self.node_limit {
            let n = recipe_node(*self.g, r);
            node_kept(w.nodes, w.edges, n);
            let nodes = with_node(w.nodes, n);
            let qty = if upward {
                match crate::util::qty_in(node.outputs@, m) {
                    Some(q) => q,
                    None => 0,
                }
            } else {
                last_qty(node.inputs@, m, node.inputs@.len() as int)
            };
            let label = quantity_label(*self.g, m, qty);
            let slots = if upward {
                node.inputs@
            } else {
                node.outputs@
            };
            let limit = if upward {
                self.max_inputs
            } else {
                self.max_outputs
            };
            let list = top_of(*self.ar, *self.g, slots, limit);
            let edges = if upward {
                edge_kept(nodes, w.edges, recipe_node_id(r), material_node_id(m), label);
                with_edge(w.edges, recipe_node_id(r), material_node_id(m), label)
            } else {
                edge_kept(nodes, w.edges, material_node_id(m), recipe_node_id(r), label);
                with_edge(w.edges, material_node_id(m), recipe_node_id(r), label)
            };
            let t = Walk {
                nodes,
                edges,
                pruned: crate::list::capped(w.pruned, left_out(slots, limit)),
                ..w
            };
            self.shown_soundly(
                t,
                r,
                list,
                crate::list::capped(far, 1),
                upward,
                list.len() as int,
            );
        }
    }

    proof fn listed_soundly(
        self,
        w: Walk,
        list: Seq<RecipeId>,
        m: MaterialId,
        far: usize,
        upward: bool,
        k: int,
    )
        requires
            self.sound(w),
            has_node(w.nodes, material_node_id(m)),
        ensures
            self.sound(self.look_to(w, list, m, far, upward, k)),
            has_node(self.look_to(w, list, m, far, upward, k).nodes, material_node_id(m)),
        decreases k,
    {
        if k > 0 {
            self.listed_soundly(w, list, m, far, upward, k - 1);
            self.looked_soundly(
                self.look_to(w, list, m, far, upward, k - 1),
                list[k - 1],
                m,
                far,
                upward,
            );
        }
    }

    proof fn steps_soundly(self, w: Walk, k: nat)
        requires
            self.sound(w),
        ensures
            self.sound(self.after(w, k)),
        decreases k,
    {
        if k > 0 && !w.done() {
            let (m, far, upward) = w.queue[0];
            let t = Walk { queue: w.queue.drop_first(), ..w };
            assert forall|i: int| 0 <= i < t.queue.len() implies has_node(
                t.nodes,
                material_node_id((#[trigger] t.queue[i]).0),
            ) by {
                assert(t.queue[i] == w.queue[i + 1]);
            }
            let list = if upward {
                self.g.producers@[m as int]@
            } else {
                self.g.consumers@[m as int]@
            };
            self.listed_soundly(t, list, m, far, upward, list.len() as int);
            self.steps_soundly(self.step(w), (k - 1) as nat);
        }
    }

    /// However far a picture is drawn, it is tidy and no larger than it may be.
    pub proof fn stays_tidy(self, start: MaterialId, up: bool, down: bool, k: nat)
        ensures
            ({
                let w = self.after(self.first(start, up, down), k);
                tidy(w.nodes, w.edges) && self.bounded(w.nodes)
            }),
    {
        let w = self.first(start, up, down);
        assert(w.nodes[0].id == material_node_id(start));
        assert(has_node(w.nodes, material_node_id(start)));
        assert forall|i: int| 0 <= i < w.queue.len() implies has_node(
            w.nodes,
            material_node_id((#[trigger] w.queue[i]).0),
        ) by {
            assert(w.queue[i].0 == start);
        }
        self.steps_soundly(w, k);
    }
}

} // verus!

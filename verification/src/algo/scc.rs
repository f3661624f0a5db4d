//! Strongly connected components (Tarjan's algorithm, without recursion).
//!
//! The nodes are the materials and the recipes. A material leads to the recipes
//! that consume it, a recipe to the materials that it produces. Edges only run
//! between materials and recipes, so a component with more than one node is a
//! production cycle.
use vstd::prelude::*;

use crate::graph::KnowledgeGraph;
use crate::list::filled;
use crate::order::sort_dedup;

verus! {

/// The components of a graph.
#[derive(Debug)]
pub struct SccResult {
    /// Component of each node.
    pub comp: Vec<u32>,
    /// Number of nodes of each component.
    pub sizes: Vec<u32>,
    /// Number of nodes.
    pub node_count: usize,
}

/// An edge leads from `v` to `w`.
pub open spec fn edge(adj: Seq<Vec<u32>>, v: int, w: int) -> bool {
    0 <= v < adj.len() && adj[v]@.contains(w as u32) && 0 <= w <= u32::MAX
}

/// `p` follows edges.
pub open spec fn is_path(adj: Seq<Vec<u32>>, p: Seq<int>) -> bool {
    p.len() > 0 && forall|i: int|
        0 <= i < p.len() - 1 ==> edge(adj, #[trigger] p[i], p[i + 1])
}

/// Some path, of one node or more, leads from `v` to `w`.
#[verifier::opaque]
pub open spec fn reach(adj: Seq<Vec<u32>>, v: int, w: int) -> bool {
    exists|p: Seq<int>| #[trigger] is_path(adj, p) && p.first() == v && p.last() == w
}

/// `v` and `w` lie on a common cycle, or are one node.
pub open spec fn mutual(adj: Seq<Vec<u32>>, v: int, w: int) -> bool {
    reach(adj, v, w) && reach(adj, w, v)
}

pub proof fn reach_self(adj: Seq<Vec<u32>>, v: int)
    ensures
        reach(adj, v, v),
{
    reveal(reach);
    let p = seq![v];
    assert(is_path(adj, p) && p.first() == v && p.last() == v);
}

pub proof fn reach_edge(adj: Seq<Vec<u32>>, v: int, w: int)
    requires
        edge(adj, v, w),
    ensures
        reach(adj, v, w),
{
    reveal(reach);
    let p = seq![v, w];
    assert(is_path(adj, p) && p.first() == v && p.last() == w);
}

pub proof fn reach_trans(adj: Seq<Vec<u32>>, u: int, v: int, w: int)
    requires
        reach(adj, u, v),
        reach(adj, v, w),
    ensures
        reach(adj, u, w),
{
    reveal(reach);
    let p = choose|p: Seq<int>| #[trigger] is_path(adj, p) && p.first() == u && p.last() == v;
    let q = choose|q: Seq<int>| #[trigger] is_path(adj, q) && q.first() == v && q.last() == w;
    let r = p + q.drop_first();
    assert forall|i: int| 0 <= i < r.len() - 1 implies edge(adj, #[trigger] r[i], r[i + 1]) by {
        if i < p.len() - 1 {
            assert(edge(adj, p[i], p[i + 1]));
        } else {
            let k = i - (p.len() - 1);
            assert(r[i] == q[k]);
            assert(edge(adj, q[k], q[k + 1]));
        }
    }
    assert(is_path(adj, r));
    if q.len() == 1 {
        assert(r =~= p);
    } else {
        assert(r.last() == q.last());
    }
    assert(r.first() == u && r.last() == w);
}

/// What a set that edges do not leave holds, it holds with all that can be
/// reached from it.
pub proof fn reach_stays(adj: Seq<Vec<u32>>, s: spec_fn(int) -> bool, v: int, w: int)
    requires
        s(v),
        reach(adj, v, w),
        forall|x: int, y: int| s(x) && #[trigger] edge(adj, x, y) ==> s(y),
    ensures
        s(w),
{
    reveal(reach);
    let p = choose|p: Seq<int>| #[trigger] is_path(adj, p) && p.first() == v && p.last() == w;
    path_stays(adj, s, p, p.len() - 1);
}

proof fn path_stays(adj: Seq<Vec<u32>>, s: spec_fn(int) -> bool, p: Seq<int>, i: int)
    requires
        is_path(adj, p),
        s(p.first()),
        0 <= i < p.len(),
        forall|x: int, y: int| s(x) && #[trigger] edge(adj, x, y) ==> s(y),
    ensures
        s(p[i]),
    decreases i,
{
    if i > 0 {
        path_stays(adj, s, p, i - 1);
        assert(edge(adj, p[i - 1], p[i - 1 + 1]));
    }
}

/// How many of the nodes are in component `c`.
pub open spec fn size_of(comp: Seq<u32>, c: u32) -> nat
    decreases comp.len(),
{
    if comp.len() == 0 {
        0
    } else {
        size_of(comp.drop_last(), c) + (if comp.last() == c {
            1nat
        } else {
            0
        })
    }
}

proof fn size_of_update(comp: Seq<u32>, i: int, x: u32, c: u32)
    requires
        0 <= i < comp.len(),
    ensures
        size_of(comp.update(i, x), c) == size_of(comp, c) - (if comp[i] == c {
            1int
        } else {
            0
        }) + (if x == c {
            1int
        } else {
            0
        }),
    decreases comp.len(),
{
    if i == comp.len() - 1 {
        assert(comp.update(i, x).drop_last() =~= comp.drop_last());
    } else {
        assert(comp.update(i, x).drop_last() =~= comp.drop_last().update(i, x));
        size_of_update(comp.drop_last(), i, x, c);
    }
}

proof fn size_of_bound(comp: Seq<u32>, c: u32)
    ensures
        size_of(comp, c) <= comp.len(),
        (exists|i: int| 0 <= i < comp.len() && comp[i] == c) ==> size_of(comp, c) > 0,
        (forall|i: int| 0 <= i < comp.len() ==> comp[i] != c) ==> size_of(comp, c) == 0,
    decreases comp.len(),
{
    if comp.len() > 0 {
        size_of_bound(comp.drop_last(), c);
        if exists|i: int| 0 <= i < comp.len() && comp[i] == c {
            let i = choose|i: int| 0 <= i < comp.len() && comp[i] == c;
            if i < comp.len() - 1 {
                assert(comp.drop_last()[i] == c);
            }
        }
    }
}

const NIL: u32 = u32::MAX;

/// The state of the walk.
struct Walk {
    index: u32,
    indices: Vec<u32>,
    lowlink: Vec<u32>,
    on_stack: Vec<bool>,
    stack: Vec<u32>,
    comp: Vec<u32>,
    sizes: Vec<u32>,
    /// Nodes that are being explored, each with the number of its edges that
    /// were followed.
    call: Vec<(u32, usize)>,
    /// The visited nodes in the order of their visits.
    order: Ghost<Seq<int>>,
    /// How many edges of each node were followed.
    seen: Ghost<Seq<int>>,
}

/// `adj` lists the edges of the nodes below `n`.
pub open spec fn graph_ok(adj: Seq<Vec<u32>>, n: int) -> bool {
    &&& 0 <= n <= adj.len()
    &&& n < u32::MAX
    &&& forall|v: int, k: int|
        0 <= v < n && 0 <= k < adj[v]@.len() ==> (#[trigger] adj[v]@[k]) < n
}

/// What is left to do on the nodes that are being explored.
spec fn rest(adj: Seq<Vec<u32>>, call: Seq<(u32, usize)>) -> int
    decreases call.len(),
{
    if call.len() == 0 {
        0
    } else {
        rest(adj, call.drop_last()) + adj[call.last().0 as int]@.len() - call.last().1 + 1
    }
}

proof fn rest_bound(adj: Seq<Vec<u32>>, call: Seq<(u32, usize)>)
    requires
        forall|p: int| 0 <= p < call.len() ==> (#[trigger] call[p]).1 <= adj[call[p].0 as int]@.len(),
    ensures
        rest(adj, call) >= 0,
    decreases call.len(),
{
    if call.len() > 0 {
        rest_bound(adj, call.drop_last());
    }
}

impl Walk {
    #[verifier::inline]
    spec fn visited(self, v: int) -> bool {
        self.indices@[v] != NIL
    }

    #[verifier::inline]
    spec fn done(self, v: int) -> bool {
        self.comp@[v] != NIL
    }

    #[verifier::inline]
    spec fn idx(self, v: int) -> int {
        self.indices@[v] as int
    }

    #[verifier::inline]
    spec fn node(self, p: int) -> int {
        self.call@[p].0 as int
    }

    #[verifier::inline]
    spec fn low(self, p: int) -> int {
        self.lowlink@[self.node(p)] as int
    }

    #[verifier::opaque]
    spec fn shape(self, n: int) -> bool {
        &&& self.indices@.len() == n
        &&& self.lowlink@.len() == n
        &&& self.on_stack@.len() == n
        &&& self.comp@.len() == n
        &&& self.seen@.len() == n
        &&& self.order@.len() == self.index
        &&& forall|i: int|
            0 <= i < self.order@.len() ==> 0 <= #[trigger] self.order@[i] < n && self.idx(
                self.order@[i],
            ) == i
        &&& forall|v: int|
            #![trigger self.indices@[v]]
            0 <= v < n && self.visited(v) ==> self.idx(v) < self.index && self.order@[self.idx(v)]
                == v
        &&& forall|i: int| 0 <= i < self.stack@.len() ==> #[trigger] self.stack@[i] < n
        &&& forall|i: int, j: int|
            0 <= i < j < self.stack@.len() ==> self.idx(#[trigger] self.stack@[i] as int)
                < self.idx(#[trigger] self.stack@[j] as int)
        &&& forall|v: int|
            0 <= v < n ==> (#[trigger] self.on_stack@[v] <==> self.stack@.contains(v as u32))
        &&& forall|v: int|
            0 <= v < n && #[trigger] self.on_stack@[v] ==> self.visited(v) && !self.done(v)
        &&& forall|v: int|
            #![trigger self.indices@[v]]
            0 <= v < n && self.visited(v) && !self.on_stack@[v] ==> self.done(v)
        &&& forall|v: int| #![trigger self.comp@[v]] 0 <= v < n && self.done(v) ==> self.visited(v)
    }

    #[verifier::opaque]
    spec fn calls(self, adj: Seq<Vec<u32>>, n: int) -> bool {
        &&& forall|p: int|
            0 <= p < self.call@.len() ==> (#[trigger] self.call@[p]).0 < n
                && self.on_stack@[self.node(p)] && self.call@[p].1 == self.seen@[self.node(p)]
                && self.call@[p].1 <= adj[self.node(p)]@.len()
        &&& forall|p: int, q: int|
            0 <= p < q < self.call@.len() ==> self.idx((#[trigger] self.call@[p]).0 as int)
                < self.idx((#[trigger] self.call@[q]).0 as int)
        &&& forall|v: int|
            #![trigger self.seen@[v]]
            0 <= v < n && self.visited(v) && (forall|p: int|
                0 <= p < self.call@.len() ==> (#[trigger] self.call@[p]).0 != v) ==> self.seen@[v]
                == adj[v]@.len()
        &&& forall|v: int| #![trigger self.seen@[v]] 0 <= v < n ==> self.seen@[v] <= adj[v]@.len()
    }

    #[verifier::opaque]
    spec fn flow(self, adj: Seq<Vec<u32>>, n: int) -> bool {
        &&& forall|x: int, k: int|
            0 <= x < n && self.visited(x) && 0 <= k < self.seen@[x] ==> self.visited(
                (#[trigger] adj[x]@[k]) as int,
            )
        &&& forall|x: int|
            0 <= x < n && #[trigger] self.comp@[x] != NIL ==> self.comp@[x] < self.sizes@.len()
        &&& forall|x: int, k: int|
            0 <= x < n && self.done(x) && 0 <= k < adj[x]@.len() ==> self.done(
                (#[trigger] adj[x]@[k]) as int,
            ) && self.comp@[adj[x]@[k] as int] <= self.comp@[x]
        &&& forall|x: int, y: int|
            0 <= x < n && 0 <= y < n && #[trigger] self.comp@[x] != NIL && #[trigger] self.comp@[y] != NIL ==> (
            self.comp@[x] == self.comp@[y] <==> mutual(adj, x, y))
        &&& self.sizes@.len() <= n
        &&& forall|c: int|
            0 <= c < self.sizes@.len() ==> #[trigger] self.sizes@[c] == size_of(
                self.comp@,
                c as u32,
            ) && self.sizes@[c] > 0
    }

    /// Node `x` of the stack was found while the node at `p` was explored.
    spec fn under(self, x: int, p: int) -> bool {
        &&& 0 <= p < self.call@.len()
        &&& self.idx(self.node(p)) <= self.idx(x)
        &&& p + 1 < self.call@.len() ==> self.idx(x) < self.idx(self.node(p + 1))
    }

    /// Every node of the stack leads back to an earlier node that is being
    /// explored.
    #[verifier::opaque]
    spec fn backs(self, adj: Seq<Vec<u32>>, n: int) -> bool {
        forall|x: int|
            0 <= x < n && #[trigger] self.on_stack@[x] ==> exists|p: int|
                #![trigger self.call@[p]]
                0 <= p < self.call@.len() && self.idx(self.node(p)) <= self.idx(x) && reach(
                    adj,
                    x,
                    self.node(p),
                )
    }

    /// A node that is being explored leads to all later nodes of the stack.
    #[verifier::opaque]
    spec fn spans(self, adj: Seq<Vec<u32>>, n: int) -> bool {
        forall|p: int, x: int|
            0 <= p < self.call@.len() && 0 <= x < n && #[trigger] self.on_stack@[x] && self.idx(
                (#[trigger] self.call@[p]).0 as int,
            ) <= self.idx(x) ==> reach(adj, self.node(p), x)
    }

    /// No edge that was followed leads below the low link of the node under
    /// which it was found.
    #[verifier::opaque]
    spec fn bounds(self, adj: Seq<Vec<u32>>, n: int) -> bool {
        forall|p: int, x: int, k: int|
            #![trigger self.under(x, p), adj[x]@[k]]
            0 <= x < n && self.on_stack@[x] && self.under(x, p) && 0 <= k < self.seen@[x]
                && self.on_stack@[adj[x]@[k] as int] ==> self.idx(adj[x]@[k] as int) >= self.low(p)
    }

    spec fn attains(self, adj: Seq<Vec<u32>>, n: int, p: int, y: int) -> bool {
        &&& 0 <= y < n
        &&& self.on_stack@[y]
        &&& self.idx(y) == self.low(p)
        &&& reach(adj, self.node(p), y)
    }

    /// A low link is the number of a node of the stack that can be reached.
    #[verifier::opaque]
    spec fn attained(self, adj: Seq<Vec<u32>>, n: int) -> bool {
        forall|p: int| 0 <= p < self.call@.len() ==> #[trigger] self.attained_at(adj, n, p)
    }

    spec fn attained_at(self, adj: Seq<Vec<u32>>, n: int, p: int) -> bool {
        &&& self.low(p) <= self.idx(self.node(p))
        &&& exists|y: int| #[trigger] self.attains(adj, n, p, y)
    }

    spec fn inv(self, adj: Seq<Vec<u32>>, n: int) -> bool {
        &&& graph_ok(adj, n)
        &&& self.shape(n)
        &&& self.calls(adj, n)
        &&& self.flow(adj, n)
        &&& self.backs(adj, n)
        &&& self.spans(adj, n)
        &&& self.bounds(adj, n)
        &&& self.attained(adj, n)
    }

    proof fn sizes_known(self, adj: Seq<Vec<u32>>, n: int)
        requires
            self.inv(adj, n),
        ensures
            self.indices@.len() == n,
            self.lowlink@.len() == n,
            self.on_stack@.len() == n,
            self.comp@.len() == n,
            self.seen@.len() == n,
            self.sizes@.len() <= n,
            self.index == self.order@.len(),
            forall|p: int|
                0 <= p < self.call@.len() ==> (#[trigger] self.call@[p]).0 < n && self.call@[p].1
                    <= adj[self.node(p)]@.len(),
    {
        reveal(Walk::shape);
        reveal(Walk::calls);
        reveal(Walk::flow);
    }

    proof fn room(self, n: int, v: int)
        requires
            self.shape(n),
            0 <= v < n,
            !self.visited(v),
        ensures
            self.index < n,
    {
        reveal(Walk::shape);
        let q = self.order@.push(v);
        assert(q.no_duplicates()) by {
            assert forall|i: int, j: int| 0 <= i < j < q.len() implies q[i] != q[j] by {
                assert(self.idx(self.order@[i]) == i);
                if j < self.order@.len() {
                    assert(self.idx(self.order@[j]) == j);
                } else if q[i] == v {
                    assert(self.index < NIL || self.index == NIL);
                    assert(self.visited(v));
                }
            }
        }
        q.unique_seq_to_set();
        vstd::set_lib::lemma_int_range(0, n);
        assert(q.to_set().subset_of(vstd::set_lib::set_int_range(0, n)));
        vstd::set_lib::lemma_len_subset(q.to_set(), vstd::set_lib::set_int_range(0, n));
    }

    /// Starts to explore node `w`, to which the next edge of the last node
    /// leads.
    fn enter(&mut self, adj: &Vec<Vec<u32>>, n: usize, w: u32)
        requires
            old(self).inv(adj@, n as int),
            w < n,
            !old(self).visited(w as int),
            old(self).call@.len() > 0 ==> {
                let (u, ci) = old(self).call@.last();
                ci < adj@[u as int]@.len() && adj@[u as int]@[ci as int] == w
            },
        ensures
            final(self).inv(adj@, n as int),
            entered(*old(self), *final(self), adj@, n as int, w as int),
            final(self).index <= n,
    {
        let ghost a = *self;
        proof {
            self.room(n as int, w as int);
            self.sizes_known(adj@, n as int);
        }
        let d: usize = self.call.len();
        if d > 0 {
            let (u, ci): (u32, usize) = self.call[d - 1];
            assert(ci < adj@[u as int].len());
            self.call[d - 1] = (u, ci + 1);
            proof {
                self.seen@ = self.seen@.update(u as int, ci + 1);
            }
        }
        self.indices[w as usize] = self.index;
        self.lowlink[w as usize] = self.index;
        self.index = self.index + 1;
        self.stack.push(w);
        self.on_stack[w as usize] = true;
        self.call.push((w, 0));
        proof {
            self.order@ = self.order@.push(w as int);
            self.seen@ = self.seen@.update(w as int, 0);
            enter_shape(a, *self, adj@, n as int, w as int);
            enter_calls(a, *self, adj@, n as int, w as int);
            enter_flow(a, *self, adj@, n as int, w as int);
            enter_backs(a, *self, adj@, n as int, w as int);
            enter_spans(a, *self, adj@, n as int, w as int);
            enter_bounds(a, *self, adj@, n as int, w as int);
            enter_attained(a, *self, adj@, n as int, w as int);
        }
    }
}

/// `b` is `a` after node `w` was entered.
spec fn entered(a: Walk, b: Walk, adj: Seq<Vec<u32>>, n: int, w: int) -> bool {
    &&& 0 <= w < n
    &&& !a.visited(w)
    &&& a.index < n
    &&& b.index == a.index + 1
    &&& b.indices@ == a.indices@.update(w, a.index)
    &&& b.lowlink@ == a.lowlink@.update(w, a.index)
    &&& b.on_stack@ == a.on_stack@.update(w, true)
    &&& b.stack@ == a.stack@.push(w as u32)
    &&& b.comp@ == a.comp@
    &&& b.sizes@ == a.sizes@
    &&& b.order@ == a.order@.push(w)
    &&& a.call@.len() == 0 ==> b.seen@ == a.seen@.update(w, 0) && b.call@ == a.call@.push(
        (w as u32, 0),
    )
    &&& a.call@.len() > 0 ==> {
        let (u, ci) = a.call@.last();
        &&& ci < adj[u as int]@.len()
        &&& ci < usize::MAX
        &&& adj[u as int]@[ci as int] == w
        &&& b.seen@ == a.seen@.update(u as int, ci + 1).update(w, 0)
        &&& b.call@ == a.call@.update(a.call@.len() - 1, (u, (ci + 1) as usize)).push(
            (w as u32, 0),
        )
    }
}

/// Entering a node leaves the numbers of the others.
proof fn entered_frame(a: Walk, b: Walk, adj: Seq<Vec<u32>>, n: int, w: int)
    requires
        a.inv(adj, n),
        entered(a, b, adj, n, w),
    ensures
        a.indices@.len() == n,
        a.lowlink@.len() == n,
        a.on_stack@.len() == n,
        a.seen@.len() == n,
        !a.on_stack@[w],
        b.idx(w) == a.index,
        b.visited(w),
        forall|v: int|
            #![trigger b.indices@[v]]
            0 <= v < n && v != w ==> b.idx(v) == a.idx(v) && b.visited(v) == a.visited(v),
        forall|p: int|
            #![trigger b.call@[p]]
            #![trigger a.call@[p]]
            0 <= p < a.call@.len() ==> b.call@[p].0 == a.call@[p].0 && a.call@[p].0 != w
                && a.call@[p].0 < n && a.on_stack@[a.call@[p].0 as int],
        b.call@.len() == a.call@.len() + 1,
        b.call@[a.call@.len() as int].0 == w,
        forall|v: int| #![trigger a.on_stack@[v]] 0 <= v < n && a.on_stack@[v] ==> v != w && a.visited(v) && a.idx(v) < a.index,
{
    reveal(Walk::shape);
    reveal(Walk::calls);
    assert(!a.on_stack@[w]);
    assert forall|p: int|
        #![trigger b.call@[p]]
        #![trigger a.call@[p]]
        0 <= p < a.call@.len() implies b.call@[p].0 == a.call@[p].0 && a.call@[p].0 != w
        && a.call@[p].0 < n && a.on_stack@[a.call@[p].0 as int] by {
        assert(a.on_stack@[a.node(p)]);
    }
    assert forall|v: int| #![trigger a.on_stack@[v]] 0 <= v < n && a.on_stack@[v] implies v != w && a.visited(v) && a.idx(v) < a.index by {
        assert(a.visited(v));
    }
}

proof fn enter_shape(a: Walk, b: Walk, adj: Seq<Vec<u32>>, n: int, w: int)
    requires
        a.inv(adj, n),
        entered(a, b, adj, n, w),
    ensures
        b.shape(n),
{
    reveal(Walk::shape);
    entered_frame(a, b, adj, n, w);
    let d = a.call@.len() as int;
    assert forall|v: int| 0 <= v < n implies (#[trigger] b.on_stack@[v] <==> b.stack@.contains(
        v as u32,
    )) by {
        if v == w {
            assert(b.stack@.last() == w as u32);
        } else if a.on_stack@[v] {
            assert(a.stack@.contains(v as u32));
            let i = choose|i: int| 0 <= i < a.stack@.len() && a.stack@[i] == v as u32;
            assert(b.stack@[i] == v as u32);
        } else if b.stack@.contains(v as u32) {
            let i = choose|i: int| 0 <= i < b.stack@.len() && b.stack@[i] == v as u32;
            assert(a.stack@[i] == v as u32);
            assert(a.stack@.contains(v as u32));
        }
    }
    assert forall|i: int, j: int| 0 <= i < j < b.stack@.len() implies b.idx(
        #[trigger] b.stack@[i] as int,
    ) < b.idx(#[trigger] b.stack@[j] as int) by {
        assert(a.stack@.contains(a.stack@[i]));
        assert(a.on_stack@[a.stack@[i] as int]);
        assert(a.visited(a.stack@[i] as int));
        if j < a.stack@.len() {
            assert(a.stack@.contains(a.stack@[j]));
            assert(a.on_stack@[a.stack@[j] as int]);
        }
    }
    assert forall|i: int| 0 <= i < b.order@.len() implies 0 <= #[trigger] b.order@[i] < n
        && b.idx(b.order@[i]) == i by {
        if i < a.order@.len() {
            assert(a.idx(a.order@[i]) == i);
            if a.order@[i] == w {
                assert(a.visited(w));
            }
        }
    }
    assert forall|v: int|
        #![trigger b.indices@[v]]
        0 <= v < n && b.visited(v) implies b.idx(v) < b.index && b.order@[b.idx(v)] == v by {
        if v != w {
            assert(a.visited(v));
        }
    }
}

proof fn enter_calls(a: Walk, b: Walk, adj: Seq<Vec<u32>>, n: int, w: int)
    requires
        a.inv(adj, n),
        entered(a, b, adj, n, w),
    ensures
        b.calls(adj, n),
{
    reveal(Walk::shape);
    reveal(Walk::calls);
    entered_frame(a, b, adj, n, w);
    let d = a.call@.len() as int;
    assert forall|p: int| 0 <= p < b.call@.len() implies (#[trigger] b.call@[p]).0 < n
        && b.on_stack@[b.node(p)] && b.call@[p].1 == b.seen@[b.node(p)] && b.call@[p].1
        <= adj[b.node(p)]@.len() by {
        if p < d {
            let x = a.call@[p];
            if p < d - 1 {
                let y = a.call@[d - 1];
                assert(a.idx(a.call@[p].0 as int) < a.idx(a.call@[d - 1].0 as int));
            }
        }
    }
    assert forall|p: int, q: int| 0 <= p < q < b.call@.len() implies b.idx(
        (#[trigger] b.call@[p]).0 as int,
    ) < b.idx((#[trigger] b.call@[q]).0 as int) by {
        let x = a.call@[p];
        assert(a.visited(a.node(p)));
        if q < d {
            let y = a.call@[q];
        }
    }
    assert forall|v: int|
        #![trigger b.seen@[v]]
        0 <= v < n && b.visited(v) && (forall|p: int|
            0 <= p < b.call@.len() ==> (#[trigger] b.call@[p]).0 != v) implies b.seen@[v]
        == adj[v]@.len() by {
        assert(b.call@[d].0 == w);
        assert(a.visited(v));
        assert forall|p: int| 0 <= p < d implies (#[trigger] a.call@[p]).0 != v by {
            assert(b.call@[p].0 != v);
        }
        assert(a.seen@[v] == adj[v]@.len());
        if d > 0 {
            assert(b.call@[d - 1].0 != v);
        }
    }
}

proof fn enter_flow(a: Walk, b: Walk, adj: Seq<Vec<u32>>, n: int, w: int)
    requires
        a.inv(adj, n),
        entered(a, b, adj, n, w),
    ensures
        b.flow(adj, n),
{
    reveal(Walk::shape);
    reveal(Walk::calls);
    reveal(Walk::flow);
    entered_frame(a, b, adj, n, w);
    let d = a.call@.len() as int;
    assert forall|x: int, k: int|
        0 <= x < n && b.visited(x) && 0 <= k < b.seen@[x] implies b.visited(
        (#[trigger] adj[x]@[k]) as int,
    ) by {
        if x != w {
            assert(a.visited(x));
            if adj[x]@[k] != w {
                assert(k < a.seen@[x] || (d > 0 && x == a.call@[d - 1].0));
                if k < a.seen@[x] {
                    assert(a.visited(adj[x]@[k] as int));
                }
            }
        }
    }
}

proof fn enter_backs(a: Walk, b: Walk, adj: Seq<Vec<u32>>, n: int, w: int)
    requires
        a.inv(adj, n),
        entered(a, b, adj, n, w),
    ensures
        b.backs(adj, n),
{
    reveal(Walk::backs);
    entered_frame(a, b, adj, n, w);
    let d = a.call@.len() as int;
    reach_self(adj, w);
    assert forall|x: int| 0 <= x < n && #[trigger] b.on_stack@[x] implies exists|p: int|
        #![trigger b.call@[p]]
        0 <= p < b.call@.len() && b.idx(b.node(p)) <= b.idx(x) && reach(adj, x, b.node(p)) by {
        if x == w {
            assert(b.call@[d].0 == w);
        } else {
            assert(a.on_stack@[x]);
            let p = choose|p: int|
                #![trigger a.call@[p]]
                0 <= p < d && a.idx(a.node(p)) <= a.idx(x) && reach(adj, x, a.node(p));
            assert(b.call@[p].0 == a.call@[p].0);
            assert(b.idx(b.node(p)) == a.idx(a.node(p)));
        }
    }
}

proof fn enter_spans(a: Walk, b: Walk, adj: Seq<Vec<u32>>, n: int, w: int)
    requires
        a.inv(adj, n),
        entered(a, b, adj, n, w),
    ensures
        b.spans(adj, n),
{
    reveal(Walk::calls);
    reveal(Walk::spans);
    entered_frame(a, b, adj, n, w);
    let d = a.call@.len() as int;
    if d > 0 {
        let u = a.node(d - 1);
        let top = a.call@[d - 1];
        assert(edge(adj, u, w)) by {
            assert(adj[u]@.contains(w as u32));
        }
        reach_edge(adj, u, w);
    }
    reach_self(adj, w);
    assert forall|p: int, x: int|
        0 <= p < b.call@.len() && 0 <= x < n && #[trigger] b.on_stack@[x] && b.idx(
            (#[trigger] b.call@[p]).0 as int,
        ) <= b.idx(x) implies reach(adj, b.node(p), x) by {
        if p < d {
            let y = a.call@[p];
            assert(a.idx(a.call@[p].0 as int) == b.idx(b.call@[p].0 as int));
            if x == w {
                let u = a.node(d - 1);
                let top = a.call@[d - 1];
                assert(a.on_stack@[u]);
                if p < d - 1 {
                    assert(a.idx(a.call@[p].0 as int) < a.idx(a.call@[d - 1].0 as int));
                }
                assert(reach(adj, a.node(p), u));
                reach_trans(adj, a.node(p), u, w);
            } else {
                assert(a.on_stack@[x]);
            }
        } else if x != w {
            assert(a.on_stack@[x]);
            assert(a.visited(x));
        }
    }
}

proof fn enter_bounds(a: Walk, b: Walk, adj: Seq<Vec<u32>>, n: int, w: int)
    requires
        a.inv(adj, n),
        entered(a, b, adj, n, w),
    ensures
        b.bounds(adj, n),
{
    reveal(Walk::calls);
    reveal(Walk::bounds);
    reveal(Walk::attained);
    entered_frame(a, b, adj, n, w);
    let d = a.call@.len() as int;
    assert forall|p: int, x: int, k: int|
        #![trigger b.under(x, p), adj[x]@[k]]
        0 <= x < n && b.on_stack@[x] && b.under(x, p) && 0 <= k < b.seen@[x]
            && b.on_stack@[adj[x]@[k] as int] implies b.idx(adj[x]@[k] as int) >= b.low(p) by {
        let t = adj[x]@[k] as int;
        if x != w {
            assert(a.on_stack@[x]);
            assert(a.visited(x));
            assert(p < d);
            let y = a.call@[p];
            if p + 1 < d {
                let z = a.call@[p + 1];
                assert(b.node(p + 1) == a.node(p + 1));
            }
            assert(a.under(x, p));
            assert(b.low(p) == a.low(p));
            if t == w {
                assert(a.visited(a.node(p)));
                assert(a.attained_at(adj, n, p));
            } else {
                assert(k < a.seen@[x]);
                assert(a.on_stack@[t]);
            }
        }
    }
}

proof fn enter_attained(a: Walk, b: Walk, adj: Seq<Vec<u32>>, n: int, w: int)
    requires
        a.inv(adj, n),
        entered(a, b, adj, n, w),
    ensures
        b.attained(adj, n),
{
    reveal(Walk::attained);
    entered_frame(a, b, adj, n, w);
    let d = a.call@.len() as int;
    reach_self(adj, w);
    assert forall|p: int| 0 <= p < b.call@.len() implies #[trigger] b.attained_at(adj, n, p) by {
        if p < d {
            let z = a.call@[p];
            assert(a.attained_at(adj, n, p));
            let y = choose|y: int| #[trigger] a.attains(adj, n, p, y);
            assert(b.call@[p].0 == a.call@[p].0);
            assert(b.attains(adj, n, p, y));
        } else {
            assert(b.attains(adj, n, p, w));
        }
    }
}

/// `b` is `a` after the last node followed its next edge to a visited node.
spec fn looked(a: Walk, b: Walk, adj: Seq<Vec<u32>>, n: int) -> bool {
    &&& a.call@.len() > 0
    &&& {
        let (u, ci) = a.call@.last();
        let w = adj[u as int]@[ci as int] as int;
        &&& ci < adj[u as int]@.len()
        &&& ci < usize::MAX
        &&& a.visited(w)
        &&& b.seen@ == a.seen@.update(u as int, ci + 1)
        &&& b.call@ == a.call@.update(a.call@.len() - 1, (u, (ci + 1) as usize))
        &&& b.lowlink@ == if a.on_stack@[w] && a.indices@[w] < a.lowlink@[u as int] {
            a.lowlink@.update(u as int, a.indices@[w])
        } else {
            a.lowlink@
        }
    }
    &&& b.index == a.index
    &&& b.indices@ == a.indices@
    &&& b.on_stack@ == a.on_stack@
    &&& b.stack@ == a.stack@
    &&& b.comp@ == a.comp@
    &&& b.sizes@ == a.sizes@
    &&& b.order@ == a.order@
}

/// Following an edge leaves who is being explored.
proof fn looked_frame(a: Walk, b: Walk, adj: Seq<Vec<u32>>, n: int)
    requires
        a.inv(adj, n),
        looked(a, b, adj, n),
    ensures
        a.indices@.len() == n,
        a.lowlink@.len() == n,
        a.on_stack@.len() == n,
        a.seen@.len() == n,
        b.call@.len() == a.call@.len(),
        forall|p: int|
            #![trigger b.call@[p]]
            #![trigger a.call@[p]]
            0 <= p < a.call@.len() ==> b.call@[p].0 == a.call@[p].0 && a.call@[p].0 < n
                && a.on_stack@[a.call@[p].0 as int] && (p < a.call@.len() - 1 ==> a.call@[p].0
                != a.call@.last().0 && b.call@[p] == a.call@[p]),
        forall|x: int, p: int| #[trigger] b.under(x, p) ==> a.under(x, p),
{
    reveal(Walk::shape);
    reveal(Walk::calls);
    let d = a.call@.len() as int;
    assert forall|p: int|
        #![trigger b.call@[p]]
        #![trigger a.call@[p]]
        0 <= p < d implies b.call@[p].0 == a.call@[p].0 && a.call@[p].0 < n
        && a.on_stack@[a.call@[p].0 as int] && (p < d - 1 ==> a.call@[p].0 != a.call@.last().0
        && b.call@[p] == a.call@[p]) by {
        if p < d - 1 {
            assert(a.idx(a.call@[p].0 as int) < a.idx(a.call@[d - 1].0 as int));
        }
    }
}

proof fn look_keeps(a: Walk, b: Walk, adj: Seq<Vec<u32>>, n: int)
    requires
        a.inv(adj, n),
        looked(a, b, adj, n),
    ensures
        b.inv(adj, n),
{
    looked_frame(a, b, adj, n);
    let d = a.call@.len() as int;
    let u = a.node(d - 1);
    let ci = a.call@[d - 1].1 as int;
    let w = adj[u]@[ci] as int;
    assert(b.shape(n)) by {
        reveal(Walk::shape);
    }
    assert(b.calls(adj, n)) by {
        reveal(Walk::calls);
        assert forall|v: int|
            #![trigger b.seen@[v]]
            0 <= v < n && b.visited(v) && (forall|p: int|
                0 <= p < b.call@.len() ==> (#[trigger] b.call@[p]).0 != v) implies b.seen@[v]
            == adj[v]@.len() by {
            assert forall|p: int| 0 <= p < d implies (#[trigger] a.call@[p]).0 != v by {
                assert(b.call@[p].0 != v);
            }
            assert(a.seen@[v] == adj[v]@.len());
            assert(b.call@[d - 1].0 != v);
        }
    }
    assert(b.flow(adj, n)) by {
        reveal(Walk::flow);
        reveal(Walk::calls);
    }
    assert(b.backs(adj, n)) by {
        reveal(Walk::backs);
        assert forall|x: int| 0 <= x < n && #[trigger] b.on_stack@[x] implies exists|p: int|
            #![trigger b.call@[p]]
            0 <= p < b.call@.len() && b.idx(b.node(p)) <= b.idx(x) && reach(adj, x, b.node(p)) by {
            assert(a.on_stack@[x]);
            let p = choose|p: int|
                #![trigger a.call@[p]]
                0 <= p < d && a.idx(a.node(p)) <= a.idx(x) && reach(adj, x, a.node(p));
            assert(b.call@[p].0 == a.call@[p].0);
        }
    }
    assert(b.spans(adj, n)) by {
        reveal(Walk::spans);
    }
    assert(b.bounds(adj, n)) by {
        reveal(Walk::bounds);
        reveal(Walk::calls);
        assert forall|p: int, x: int, k: int|
            #![trigger b.under(x, p), adj[x]@[k]]
            0 <= x < n && b.on_stack@[x] && b.under(x, p) && 0 <= k < b.seen@[x]
                && b.on_stack@[adj[x]@[k] as int] implies b.idx(adj[x]@[k] as int) >= b.low(p) by {
            assert(a.under(x, p));
            assert(b.call@[p].0 == a.call@[p].0);
            assert(b.low(p) <= a.low(p));
            if x == u && k == ci {
                if p < d - 1 {
                    assert(a.idx(a.call@[p + 1].0 as int) <= a.idx(a.call@[d - 1].0 as int));
                }
                assert(p == d - 1);
            }
        }
    }
    assert(b.attained(adj, n)) by {
        reveal(Walk::attained);
        assert(edge(adj, u, w)) by {
            reveal(Walk::calls);
            assert(adj[u]@.contains(w as u32));
        }
        reach_edge(adj, u, w);
        assert forall|p: int| 0 <= p < b.call@.len() implies #[trigger] b.attained_at(adj, n, p) by {
            let z = a.call@[p];
            assert(a.attained_at(adj, n, p));
            let y = choose|y: int| #[trigger] a.attains(adj, n, p, y);
            if p == d - 1 && b.lowlink@[u] != a.lowlink@[u] {
                assert(b.attains(adj, n, p, w));
            } else {
                assert(b.attains(adj, n, p, y));
            }
        }
    }
}

/// `b` is `a` after the last node was left, when it is not the first of its
/// component.
spec fn left(a: Walk, b: Walk, adj: Seq<Vec<u32>>, n: int) -> bool {
    let d = a.call@.len() as int;
    let v = a.node(d - 1);
    let u = a.node(d - 2);
    &&& d >= 2
    &&& a.seen@[v] == adj[v]@.len()
    &&& a.lowlink@[v] < a.indices@[v]
    &&& b.call@ == a.call@.drop_last()
    &&& b.lowlink@ == if a.lowlink@[v] < a.lowlink@[u] {
        a.lowlink@.update(u, a.lowlink@[v])
    } else {
        a.lowlink@
    }
    &&& b.index == a.index
    &&& b.indices@ == a.indices@
    &&& b.on_stack@ == a.on_stack@
    &&& b.stack@ == a.stack@
    &&& b.comp@ == a.comp@
    &&& b.sizes@ == a.sizes@
    &&& b.order@ == a.order@
    &&& b.seen@ == a.seen@
}

proof fn leave_keeps(a: Walk, b: Walk, adj: Seq<Vec<u32>>, n: int)
    requires
        a.inv(adj, n),
        left(a, b, adj, n),
    ensures
        b.inv(adj, n),
{
    a.sizes_known(adj, n);
    let d = a.call@.len() as int;
    let v = a.node(d - 1);
    let u = a.node(d - 2);
    let top = a.call@[d - 1];
    let below = a.call@[d - 2];
    assert(a.on_stack@[v] && a.on_stack@[u]) by {
        reveal(Walk::calls);
    }
    assert(b.shape(n)) by {
        reveal(Walk::shape);
    }
    assert(b.calls(adj, n)) by {
        reveal(Walk::calls);
        assert forall|x: int|
            #![trigger b.seen@[x]]
            0 <= x < n && b.visited(x) && (forall|p: int|
                0 <= p < b.call@.len() ==> (#[trigger] b.call@[p]).0 != x) implies b.seen@[x]
            == adj[x]@.len() by {
            if x != v {
                assert forall|p: int| 0 <= p < d implies (#[trigger] a.call@[p]).0 != x by {
                    if p < d - 1 {
                        assert(b.call@[p].0 != x);
                    }
                }
                assert(a.seen@[x] == adj[x]@.len());
            }
        }
    }
    assert(b.flow(adj, n)) by {
        reveal(Walk::flow);
    }
    assert(a.attained_at(adj, n, d - 1)) by {
        reveal(Walk::attained);
    }
    let y = choose|y: int| #[trigger] a.attains(adj, n, d - 1, y);
    assert(b.backs(adj, n)) by {
        reveal(Walk::backs);
        let q = choose|p: int|
            #![trigger a.call@[p]]
            0 <= p < d && a.idx(a.node(p)) <= a.idx(y) && reach(adj, y, a.node(p));
        let there = a.call@[q];
        assert(q < d - 1);
        assert forall|x: int| 0 <= x < n && #[trigger] b.on_stack@[x] implies exists|p: int|
            #![trigger b.call@[p]]
            0 <= p < b.call@.len() && b.idx(b.node(p)) <= b.idx(x) && reach(adj, x, b.node(p)) by {
            assert(a.on_stack@[x]);
            let p = choose|p: int|
                #![trigger a.call@[p]]
                0 <= p < d && a.idx(a.node(p)) <= a.idx(x) && reach(adj, x, a.node(p));
            if p < d - 1 {
                assert(b.call@[p] == a.call@[p]);
            } else {
                reach_trans(adj, x, v, y);
                reach_trans(adj, x, y, a.node(q));
                assert(b.call@[q] == a.call@[q]);
            }
        }
    }
    assert(b.spans(adj, n)) by {
        reveal(Walk::spans);
        assert forall|p: int, x: int|
            0 <= p < b.call@.len() && 0 <= x < n && #[trigger] b.on_stack@[x] && b.idx(
                (#[trigger] b.call@[p]).0 as int,
            ) <= b.idx(x) implies reach(adj, b.node(p), x) by {
            assert(b.call@[p] == a.call@[p]);
            assert(a.on_stack@[x]);
        }
    }
    assert(b.bounds(adj, n)) by {
        reveal(Walk::bounds);
        reveal(Walk::calls);
        assert forall|p: int, x: int, k: int|
            #![trigger b.under(x, p), adj[x]@[k]]
            0 <= x < n && b.on_stack@[x] && b.under(x, p) && 0 <= k < b.seen@[x]
                && b.on_stack@[adj[x]@[k] as int] implies b.idx(adj[x]@[k] as int) >= b.low(p) by {
            assert(b.call@[p] == a.call@[p]);
            assert(b.low(p) <= a.low(p));
            if p < d - 2 {
                assert(b.call@[p + 1] == a.call@[p + 1]);
                assert(a.under(x, p));
            } else if a.idx(x) < a.idx(v) {
                assert(a.under(x, d - 2));
            } else {
                assert(a.under(x, d - 1));
                assert(b.low(p) <= a.low(d - 1));
            }
        }
    }
    assert(b.attained(adj, n)) by {
        reveal(Walk::attained);
        assert(reach(adj, u, v)) by {
            reveal(Walk::spans);
            reveal(Walk::calls);
            assert(a.idx(a.call@[d - 2].0 as int) < a.idx(a.call@[d - 1].0 as int));
        }
        reach_trans(adj, u, v, y);
        assert forall|p: int| 0 <= p < b.call@.len() implies #[trigger] b.attained_at(adj, n, p) by {
            assert(b.call@[p] == a.call@[p]);
            assert(a.attained_at(adj, n, p));
            let z = choose|z: int| #[trigger] a.attains(adj, n, p, z);
            if p < d - 2 {
                reveal(Walk::calls);
                assert(a.idx(a.call@[p].0 as int) < a.idx(a.call@[d - 2].0 as int));
            }
            if p == d - 2 && b.lowlink@[u] != a.lowlink@[u] {
                assert(b.attains(adj, n, p, y));
            } else {
                assert(b.attains(adj, n, p, z));
            }
        }
    }
}

/// `b` is `a` after the last node was left, when it is the first of its
/// component: the component is taken off the stack.
spec fn cut(a: Walk, b: Walk, adj: Seq<Vec<u32>>, n: int) -> bool {
    let d = a.call@.len() as int;
    let v = a.node(d - 1);
    let c = a.sizes@.len();
    &&& d >= 1
    &&& a.seen@[v] == adj[v]@.len()
    &&& a.lowlink@[v] == a.indices@[v]
    &&& b.call@ == a.call@.drop_last()
    &&& b.lowlink@ == a.lowlink@
    &&& b.index == a.index
    &&& b.indices@ == a.indices@
    &&& b.on_stack@.len() == n
    &&& b.comp@.len() == n
    &&& forall|x: int|
        0 <= x < n ==> (#[trigger] b.on_stack@[x] <==> a.on_stack@[x] && a.idx(x) < a.idx(v))
    &&& forall|x: int|
        0 <= x < n ==> #[trigger] b.comp@[x] == if a.on_stack@[x] && a.idx(x) >= a.idx(v) {
            c as u32
        } else {
            a.comp@[x]
        }
    &&& exists|q: int|
        0 <= q < a.stack@.len() && #[trigger] a.stack@[q] == v && b.stack@ == a.stack@.take(q)
    &&& b.sizes@.len() == c + 1
    &&& b.sizes@.last() == size_of(b.comp@, c as u32)
    &&& forall|k: int|
        0 <= k < c ==> #[trigger] b.sizes@[k] == a.sizes@[k] && size_of(b.comp@, k as u32)
            == size_of(a.comp@, k as u32)
    &&& b.order@ == a.order@
    &&& b.seen@ == a.seen@
}

/// There are no more components than nodes.
proof fn components_fit(comp: Seq<u32>, k: int)
    requires
        0 <= k <= u32::MAX,
        forall|c: int| 0 <= c < k ==> size_of(comp, #[trigger] (c as u32)) > 0,
    ensures
        k <= comp.len(),
{
    let at = Seq::new(k as nat, |c: int| choose|x: int| 0 <= x < comp.len() && comp[x] == c as u32);
    assert forall|c: int| 0 <= c < k implies 0 <= #[trigger] at[c] < comp.len() && comp[at[c]]
        == c as u32 by {
        size_of_bound(comp, c as u32);
        assert(exists|x: int| 0 <= x < comp.len() && comp[x] == c as u32);
    }
    assert(at.no_duplicates());
    at.unique_seq_to_set();
    vstd::set_lib::lemma_int_range(0, comp.len() as int);
    assert(at.to_set().subset_of(vstd::set_lib::set_int_range(0, comp.len() as int)));
    vstd::set_lib::lemma_len_subset(
        at.to_set(),
        vstd::set_lib::set_int_range(0, comp.len() as int),
    );
}

/// The nodes of the stack from the last node on are the component of that node.
proof fn cut_members(a: Walk, adj: Seq<Vec<u32>>, n: int, x: int)
    requires
        a.inv(adj, n),
        a.call@.len() > 0,
        a.seen@[a.node(a.call@.len() - 1)] == adj[a.node(a.call@.len() - 1)]@.len(),
        a.lowlink@[a.node(a.call@.len() - 1)] == a.indices@[a.node(a.call@.len() - 1)],
        0 <= x < n,
        a.on_stack@[x],
        a.idx(x) >= a.idx(a.node(a.call@.len() - 1)),
    ensures
        mutual(adj, x, a.node(a.call@.len() - 1)),
        a.seen@[x] == adj[x]@.len(),
        forall|k: int|
            #![trigger adj[x]@[k]]
            0 <= k < adj[x]@.len() ==> {
                let w = adj[x]@[k] as int;
                a.done(w) || (a.on_stack@[w] && a.idx(w) >= a.idx(a.node(a.call@.len() - 1)))
            },
{
    a.sizes_known(adj, n);
    let d = a.call@.len() as int;
    let v = a.node(d - 1);
    let top = a.call@[d - 1];
    assert(a.on_stack@[v]) by {
        reveal(Walk::calls);
    }
    assert(reach(adj, v, x)) by {
        reveal(Walk::spans);
    }
    assert(reach(adj, x, v)) by {
        reveal(Walk::backs);
        let p = choose|p: int|
            #![trigger a.call@[p]]
            0 <= p < d && a.idx(a.node(p)) <= a.idx(x) && reach(adj, x, a.node(p));
        let there = a.call@[p];
        assert(a.idx(a.node(p)) <= a.idx(v)) by {
            reveal(Walk::calls);
            if p < d - 1 {
                assert(a.idx(a.call@[p].0 as int) < a.idx(a.call@[d - 1].0 as int));
            }
        }
        assert(reach(adj, a.node(p), v)) by {
            reveal(Walk::spans);
        }
        reach_trans(adj, x, a.node(p), v);
    }
    assert(a.visited(x)) by {
        reveal(Walk::shape);
    }
    assert(a.seen@[x] == adj[x]@.len()) by {
        reveal(Walk::calls);
        if x != v {
            assert forall|p: int| 0 <= p < d implies (#[trigger] a.call@[p]).0 != x by {
                if p < d - 1 {
                    assert(a.idx(a.call@[p].0 as int) < a.idx(a.call@[d - 1].0 as int));
                }
            }
        }
    }
    assert forall|k: int| #![trigger adj[x]@[k]] 0 <= k < adj[x]@.len() implies {
        let w = adj[x]@[k] as int;
        a.done(w) || (a.on_stack@[w] && a.idx(w) >= a.idx(v))
    } by {
        let w = adj[x]@[k] as int;
        assert(a.visited(w)) by {
            reveal(Walk::flow);
        }
        if a.on_stack@[w] {
            assert(a.under(x, d - 1));
            assert(a.idx(w) >= a.low(d - 1)) by {
                reveal(Walk::bounds);
            }
        } else {
            assert(a.done(w)) by {
                reveal(Walk::shape);
            }
        }
    }
}

proof fn cut_keeps(a: Walk, b: Walk, adj: Seq<Vec<u32>>, n: int)
    requires
        a.inv(adj, n),
        cut(a, b, adj, n),
    ensures
        b.inv(adj, n),
{
    a.sizes_known(adj, n);
    let d = a.call@.len() as int;
    let v = a.node(d - 1);
    let top = a.call@[d - 1];
    assert(a.on_stack@[v]) by {
        reveal(Walk::calls);
    }
    assert(b.shape(n)) by {
        cut_shape(a, b, adj, n);
    }
    assert(b.calls(adj, n)) by {
        reveal(Walk::calls);
        assert forall|p: int| 0 <= p < b.call@.len() implies (#[trigger] b.call@[p]).0 < n
            && b.on_stack@[b.node(p)] && b.call@[p].1 == b.seen@[b.node(p)] && b.call@[p].1
            <= adj[b.node(p)]@.len() by {
            assert(b.call@[p] == a.call@[p]);
            assert(a.idx(a.call@[p].0 as int) < a.idx(a.call@[d - 1].0 as int));
        }
        assert forall|x: int|
            #![trigger b.seen@[x]]
            0 <= x < n && b.visited(x) && (forall|p: int|
                0 <= p < b.call@.len() ==> (#[trigger] b.call@[p]).0 != x) implies b.seen@[x]
            == adj[x]@.len() by {
            if x != v {
                assert forall|p: int| 0 <= p < d implies (#[trigger] a.call@[p]).0 != x by {
                    if p < d - 1 {
                        assert(b.call@[p].0 != x);
                    }
                }
                assert(a.seen@[x] == adj[x]@.len());
            }
        }
    }
    assert(b.flow(adj, n)) by {
        cut_flow(a, b, adj, n);
    }
    assert(b.backs(adj, n)) by {
        reveal(Walk::backs);
        assert forall|x: int| 0 <= x < n && #[trigger] b.on_stack@[x] implies exists|p: int|
            #![trigger b.call@[p]]
            0 <= p < b.call@.len() && b.idx(b.node(p)) <= b.idx(x) && reach(adj, x, b.node(p)) by {
            assert(a.on_stack@[x]);
            let p = choose|p: int|
                #![trigger a.call@[p]]
                0 <= p < d && a.idx(a.node(p)) <= a.idx(x) && reach(adj, x, a.node(p));
            assert(p < d - 1);
            assert(b.call@[p] == a.call@[p]);
        }
    }
    assert(b.spans(adj, n)) by {
        reveal(Walk::spans);
        assert forall|p: int, x: int|
            0 <= p < b.call@.len() && 0 <= x < n && #[trigger] b.on_stack@[x] && b.idx(
                (#[trigger] b.call@[p]).0 as int,
            ) <= b.idx(x) implies reach(adj, b.node(p), x) by {
            assert(b.call@[p] == a.call@[p]);
            assert(a.on_stack@[x]);
        }
    }
    assert(b.bounds(adj, n)) by {
        reveal(Walk::bounds);
        reveal(Walk::calls);
        assert forall|p: int, x: int, k: int|
            #![trigger b.under(x, p), adj[x]@[k]]
            0 <= x < n && b.on_stack@[x] && b.under(x, p) && 0 <= k < b.seen@[x]
                && b.on_stack@[adj[x]@[k] as int] implies b.idx(adj[x]@[k] as int) >= b.low(p) by {
            assert(b.call@[p] == a.call@[p]);
            if p + 1 < d - 1 {
                assert(b.call@[p + 1] == a.call@[p + 1]);
            }
            assert(a.under(x, p));
            assert(a.on_stack@[adj[x]@[k] as int]);
        }
    }
    cut_attained(a, b, adj, n);
}

proof fn cut_attained(a: Walk, b: Walk, adj: Seq<Vec<u32>>, n: int)
    requires
        a.inv(adj, n),
        cut(a, b, adj, n),
    ensures
        b.attained(adj, n),
{
    a.sizes_known(adj, n);
    reveal(Walk::attained);
    let d = a.call@.len() as int;
    assert forall|p: int| 0 <= p < d - 1 implies a.idx((#[trigger] a.call@[p]).0 as int) < a.idx(
        a.node(d - 1),
    ) by {
        reveal(Walk::calls);
        assert(a.idx(a.call@[p].0 as int) < a.idx(a.call@[d - 1].0 as int));
    }
    assert forall|p: int| 0 <= p < b.call@.len() implies #[trigger] b.attained_at(adj, n, p) by {
        assert(b.call@[p] == a.call@[p]);
        assert(a.attained_at(adj, n, p));
        let z = choose|z: int| #[trigger] a.attains(adj, n, p, z);
        assert(b.attains(adj, n, p, z));
    }
}

proof fn cut_shape(a: Walk, b: Walk, adj: Seq<Vec<u32>>, n: int)
    requires
        a.inv(adj, n),
        cut(a, b, adj, n),
    ensures
        b.shape(n),
{
    a.sizes_known(adj, n);
    reveal(Walk::shape);
    let d = a.call@.len() as int;
    let v = a.node(d - 1);
    let q = choose|q: int|
        0 <= q < a.stack@.len() && #[trigger] a.stack@[q] == v && b.stack@ == a.stack@.take(q);
    assert forall|x: int| 0 <= x < n implies (#[trigger] b.on_stack@[x] <==> b.stack@.contains(
        x as u32,
    )) by {
        if b.on_stack@[x] {
            assert(a.on_stack@[x]);
            assert(a.stack@.contains(x as u32));
            let i = choose|i: int| 0 <= i < a.stack@.len() && a.stack@[i] == x as u32;
            if i > q {
                assert(a.idx(a.stack@[q] as int) < a.idx(a.stack@[i] as int));
            }
            assert(i < q);
            assert(b.stack@[i] == x as u32);
        }
        if b.stack@.contains(x as u32) {
            let i = choose|i: int| 0 <= i < b.stack@.len() && b.stack@[i] == x as u32;
            assert(a.stack@[i] == x as u32);
            assert(a.stack@.contains(x as u32));
            assert(a.on_stack@[x]);
            assert(a.idx(a.stack@[i] as int) < a.idx(a.stack@[q] as int));
        }
    }
    assert forall|x: int|
        #![trigger b.indices@[x]]
        0 <= x < n && b.visited(x) && !b.on_stack@[x] implies b.done(x) by {
        assert(a.visited(x));
        let c = b.comp@[x];
    }
    assert forall|x: int| #![trigger b.comp@[x]] 0 <= x < n && b.done(x) implies b.visited(x) by {
        if a.on_stack@[x] {
            assert(a.visited(x));
        } else {
            assert(a.done(x));
        }
    }
    assert forall|x: int| 0 <= x < n && #[trigger] b.on_stack@[x] implies b.visited(x)
        && !b.done(x) by {
        assert(a.on_stack@[x]);
        assert(b.comp@[x] == a.comp@[x]);
    }
}

proof fn cut_flow(a: Walk, b: Walk, adj: Seq<Vec<u32>>, n: int)
    requires
        a.inv(adj, n),
        cut(a, b, adj, n),
    ensures
        b.flow(adj, n),
{
    a.sizes_known(adj, n);
    let d = a.call@.len() as int;
    let v = a.node(d - 1);
    let top = a.call@[d - 1];
    let c = a.sizes@.len() as int;
    let s = |x: int| a.on_stack@[x] && a.idx(x) >= a.idx(v);
    assert(a.on_stack@[v]) by {
        reveal(Walk::calls);
    }
    assert forall|x: int| 0 <= x < n implies (#[trigger] b.comp@[x] != NIL <==> a.done(x) || s(x))
        && (s(x) ==> !a.done(x)) by {
        reveal(Walk::shape);
        assert(a.on_stack@[x] ==> !a.done(x));
    }
    assert(forall|x: int|
        0 <= x < n && #[trigger] a.comp@[x] != NIL ==> a.comp@[x] < a.sizes@.len()) by {
        reveal(Walk::flow);
    }
    assert forall|x: int, k: int|
        0 <= x < n && b.done(x) && 0 <= k < adj[x]@.len() implies b.done(
        (#[trigger] adj[x]@[k]) as int,
    ) && b.comp@[adj[x]@[k] as int] <= b.comp@[x] by {
        let w = adj[x]@[k] as int;
        if s(x) {
            cut_members(a, adj, n, x);
            let t = b.comp@[w];
            if a.done(w) {
                assert(a.comp@[w] < a.sizes@.len());
            }
        } else {
            assert(a.done(x));
            reveal(Walk::flow);
            assert(a.done(w) && a.comp@[w] <= a.comp@[x]);
            assert(b.comp@[w] == a.comp@[w]);
        }
    }
    assert forall|x: int, y: int|
        0 <= x < n && 0 <= y < n && #[trigger] b.comp@[x] != NIL && #[trigger] b.comp@[y]
            != NIL implies (b.comp@[x] == b.comp@[y] <==> mutual(adj, x, y)) by {
        if s(x) && s(y) {
            cut_members(a, adj, n, x);
            cut_members(a, adj, n, y);
            reach_trans(adj, x, v, y);
            reach_trans(adj, y, v, x);
        } else if s(x) {
            done_stays(a, adj, n, y, x);
        } else if s(y) {
            done_stays(a, adj, n, x, y);
        } else {
            reveal(Walk::flow);
            assert(a.done(x) && a.done(y));
        }
    }
    assert forall|x: int, k: int|
        0 <= x < n && b.visited(x) && 0 <= k < b.seen@[x] implies b.visited(
        (#[trigger] adj[x]@[k]) as int,
    ) by {
        reveal(Walk::flow);
    }
    assert(a.sizes@.len() <= n);
    assert forall|k: int| 0 <= k < c + 1 implies #[trigger] b.sizes@[k] == size_of(
        b.comp@,
        k as u32,
    ) && b.sizes@[k] > 0 by {
        if k < c {
            reveal(Walk::flow);
            assert(a.sizes@[k] == size_of(a.comp@, k as u32));
        } else {
            size_of_bound(b.comp@, c as u32);
            assert(b.comp@[v] == c as u32);
        }
    }
    assert(b.sizes@.len() <= n) by {
        assert forall|k: int| 0 <= k < c + 1 implies size_of(b.comp@, #[trigger] (k as u32)) > 0 by {
            assert(b.sizes@[k] > 0);
        }
        components_fit(b.comp@, c + 1);
    }
    reveal(Walk::flow);
}

/// Nodes whose component is known only lead to such nodes.
proof fn done_stays(a: Walk, adj: Seq<Vec<u32>>, n: int, x: int, y: int)
    requires
        a.inv(adj, n),
        0 <= x < n,
        a.done(x),
    ensures
        reach(adj, x, y) ==> 0 <= y < n && a.done(y),
{
    if reach(adj, x, y) {
        let s = |z: int| 0 <= z < n && a.done(z);
        assert forall|z: int, t: int| s(z) && #[trigger] edge(adj, z, t) implies s(t) by {
            reveal(Walk::flow);
            let k = choose|k: int| 0 <= k < adj[z]@.len() && adj[z]@[k] == t as u32;
            assert(a.done(adj[z]@[k] as int));
        }
        reach_stays(adj, s, x, y);
    }
}

impl Walk {
    /// Follows the next edge of the last node to a node that was visited.
    fn look(&mut self, adj: &Vec<Vec<u32>>, n: usize)
        requires
            old(self).inv(adj@, n as int),
            old(self).call@.len() > 0,
            old(self).call@.last().1 < adj@[old(self).call@.last().0 as int]@.len(),
            old(self).visited(
                adj@[old(self).call@.last().0 as int]@[old(self).call@.last().1 as int] as int,
            ),
        ensures
            final(self).inv(adj@, n as int),
            looked(*old(self), *final(self), adj@, n as int),
            rest(adj@, final(self).call@) < rest(adj@, old(self).call@),
    {
        let ghost a = *self;
        proof {
            self.sizes_known(adj@, n as int);
        }
        let d: usize = self.call.len();
        let (u, ci): (u32, usize) = self.call[d - 1];
        let w: u32 = adj[u as usize][ci];
        assert(ci < adj@[u as int].len());
        self.call[d - 1] = (u, ci + 1);
        if self.on_stack[w as usize] && self.indices[w as usize] < self.lowlink[u as usize] {
            let at: u32 = self.indices[w as usize];
            self.lowlink[u as usize] = at;
        }
        proof {
            self.seen@ = self.seen@.update(u as int, ci + 1);
            look_keeps(a, *self, adj@, n as int);
            assert(self.call@.drop_last() =~= a.call@.drop_last());
        }
    }

    /// A node that is left first among those being explored is the first of its
    /// component.
    proof fn bottom(self, adj: Seq<Vec<u32>>, n: int)
        requires
            self.inv(adj, n),
            self.call@.len() == 1,
        ensures
            self.low(0) == self.idx(self.node(0)),
    {
        self.sizes_known(adj, n);
        reveal(Walk::attained);
        reveal(Walk::backs);
        assert(self.attained_at(adj, n, 0));
        let y = choose|y: int| #[trigger] self.attains(adj, n, 0, y);
        assert(self.on_stack@[y]);
    }

    /// Takes the component of node `v` off the stack.
    fn pop_component(&mut self, adj: &Vec<Vec<u32>>, n: usize, v: u32)
        requires
            old(self).shape(n as int),
            old(self).sizes@.len() < n < u32::MAX,
            v < n,
            old(self).on_stack@[v as int],
        ensures
            final(self).call@ == old(self).call@,
            final(self).lowlink@ == old(self).lowlink@,
            final(self).index == old(self).index,
            final(self).indices@ == old(self).indices@,
            final(self).order@ == old(self).order@,
            final(self).seen@ == old(self).seen@,
            final(self).on_stack@.len() == n,
            final(self).comp@.len() == n,
            forall|x: int|
                0 <= x < n ==> (#[trigger] final(self).on_stack@[x] <==> old(self).on_stack@[x]
                    && old(self).idx(x) < old(self).idx(v as int)),
            forall|x: int|
                0 <= x < n ==> #[trigger] final(self).comp@[x] == if old(self).on_stack@[x]
                    && old(self).idx(x) >= old(self).idx(v as int) {
                    old(self).sizes@.len() as u32
                } else {
                    old(self).comp@[x]
                },
            exists|q: int|
                0 <= q < old(self).stack@.len() && #[trigger] old(self).stack@[q] == v
                    && final(self).stack@ == old(self).stack@.take(q),
            final(self).sizes@.len() == old(self).sizes@.len() + 1,
            final(self).sizes@.last() == size_of(final(self).comp@, old(self).sizes@.len() as u32)
                - size_of(old(self).comp@, old(self).sizes@.len() as u32),
            forall|k: int|
                0 <= k < old(self).sizes@.len() ==> #[trigger] final(self).sizes@[k] == old(
                    self,
                ).sizes@[k] && size_of(final(self).comp@, k as u32) == size_of(
                    old(self).comp@,
                    k as u32,
                ),
    {
        let ghost a = *self;
        let cid: u32 = self.sizes.len() as u32;
        let mut size: u32 = 0;
        proof {
            reveal(Walk::shape);
            assert(a.stack@.contains(v));
        }
        let ghost q = choose|q: int| 0 <= q < a.stack@.len() && a.stack@[q] == v;
        let mut more = true;
        while more
            invariant
                n < u32::MAX,
                a.shape(n as int),
                a.sizes@.len() < n,
                cid == a.sizes@.len(),
                0 <= q < a.stack@.len(),
                a.stack@[q] == v,
                q <= self.stack@.len() <= a.stack@.len(),
                more <==> q < self.stack@.len(),
                self.stack@ == a.stack@.take(self.stack@.len() as int),
                self.call@ == a.call@,
                self.lowlink@ == a.lowlink@,
                self.index == a.index,
                self.indices@ == a.indices@,
                self.order@ == a.order@,
                self.seen@ == a.seen@,
                self.sizes@ == a.sizes@,
                self.on_stack@.len() == n,
                self.comp@.len() == n,
                forall|x: int|
                    #![trigger self.on_stack@[x]]
                    #![trigger self.comp@[x]]
                    0 <= x < n ==> if a.on_stack@[x] && self.stack@.len() < a.stack@.len()
                        && a.idx(x) >= a.idx(a.stack@[self.stack@.len() as int] as int) {
                        !self.on_stack@[x] && self.comp@[x] == cid
                    } else {
                        self.on_stack@[x] == a.on_stack@[x] && self.comp@[x] == a.comp@[x]
                    },
                size == size_of(self.comp@, cid) - size_of(a.comp@, cid),
                forall|k: int|
                    0 <= k < cid ==> size_of(self.comp@, #[trigger] (k as u32)) == size_of(
                        a.comp@,
                        k as u32,
                    ),
            decreases self.stack@.len(),
        {
            let ghost top = self.stack@.len() - 1;
            let ghost comp0 = self.comp@;
            proof {
                reveal(Walk::shape);
                assert(a.stack@.contains(a.stack@[top]));
                assert(a.on_stack@[a.stack@[top] as int]);
                assert(self.stack@.last() == a.stack@[top]);
                size_of_bound(self.comp@, cid);
            }
            match self.stack.pop() {
                Some(w) => {
                    proof {
                        reveal(Walk::shape);
                        assert(w == a.stack@[top]);
                        assert(a.visited(w as int));
                        if top + 1 < a.stack@.len() {
                            assert(a.idx(a.stack@[top] as int) < a.idx(a.stack@[top + 1] as int));
                        }
                        assert(self.comp@[w as int] == a.comp@[w as int]);
                        assert(self.comp@[w as int] == NIL);
                        assert forall|k: int| 0 <= k < cid implies size_of(
                            self.comp@.update(w as int, cid),
                            #[trigger] (k as u32),
                        ) == size_of(a.comp@, k as u32) by {
                            size_of_update(comp0, w as int, cid, k as u32);
                        }
                        size_of_update(comp0, w as int, cid, cid);
                        size_of_bound(self.comp@.update(w as int, cid), cid);
                    }
                    self.on_stack[w as usize] = false;
                    self.comp[w as usize] = cid;
                    size = size + 1;
                    if w == v {
                        proof {
                            reveal(Walk::shape);
                            if q < top {
                                assert(a.idx(a.stack@[q] as int) < a.idx(a.stack@[top] as int));
                            }
                        }
                        more = false;
                    }
                    proof {
                        reveal(Walk::shape);
                        assert forall|x: int|
                            #![trigger self.on_stack@[x]]
                            #![trigger self.comp@[x]]
                            0 <= x < n implies if a.on_stack@[x] && a.idx(x) >= a.idx(
                            a.stack@[top] as int,
                        ) {
                            !self.on_stack@[x] && self.comp@[x] == cid
                        } else {
                            self.on_stack@[x] == a.on_stack@[x] && self.comp@[x] == a.comp@[x]
                        } by {
                            if a.on_stack@[x] && a.idx(x) >= a.idx(a.stack@[top] as int) && x
                                != w {
                                assert(a.stack@.contains(x as u32));
                                let i = choose|i: int|
                                    0 <= i < a.stack@.len() && a.stack@[i] == x as u32;
                                if i < top {
                                    assert(a.idx(a.stack@[i] as int) < a.idx(
                                        a.stack@[top] as int,
                                    ));
                                }
                                assert(i > top);
                                if i > top + 1 {
                                    assert(a.idx(a.stack@[top + 1] as int) < a.idx(
                                        a.stack@[i] as int,
                                    ));
                                }
                            }
                        }
                    }
                },
                None => {
                    more = false;
                },
            }
        }
        self.sizes.push(size);
        assert(a.stack@[q] == v && self.stack@ == a.stack@.take(q));
    }

    /// Leaves the last node, all of whose edges were followed.
    fn leave(&mut self, adj: &Vec<Vec<u32>>, n: usize)
        requires
            old(self).inv(adj@, n as int),
            old(self).call@.len() > 0,
            old(self).call@.last().1 == adj@[old(self).call@.last().0 as int]@.len(),
        ensures
            final(self).inv(adj@, n as int),
            left(*old(self), *final(self), adj@, n as int) || cut(
                *old(self),
                *final(self),
                adj@,
                n as int,
            ),
            rest(adj@, final(self).call@) < rest(adj@, old(self).call@),
    {
        let ghost a = *self;
        proof {
            self.sizes_known(adj@, n as int);
            reveal(Walk::calls);
            if self.call@.len() == 1 {
                self.bottom(adj@, n as int);
            }
            assert(self.on_stack@[self.call@.last().0 as int]);
        }
        let d: usize = self.call.len();
        let v: u32 = self.call[d - 1].0;
        self.call.pop();
        assert(self.call@ =~= a.call@.drop_last());
        if d >= 2 {
            let u: u32 = self.call[d - 2].0;
            if self.lowlink[v as usize] < self.lowlink[u as usize] {
                let low: u32 = self.lowlink[v as usize];
                self.lowlink[u as usize] = low;
            }
            proof {
                assert(a.idx(a.call@[d - 2].0 as int) < a.idx(a.call@[d - 1].0 as int));
                assert(a.call@[d - 2].0 == u);
                assert(a.attained_at(adj@, n as int, d - 2)) by {
                    reveal(Walk::attained);
                }
            }
        }
        if self.lowlink[v as usize] == self.indices[v as usize] {
            assert(self.lowlink@ =~= a.lowlink@);
            let ghost b = *self;
            proof {
                assert(b.shape(n as int)) by {
                    reveal(Walk::shape);
                }
                self.fresh(a, adj@, n as int, v as int);
            }
            self.pop_component(adj, n, v);
            proof {
                cut_keeps(a, *self, adj@, n as int);
            }
        } else {
            proof {
                assert(a.attained_at(adj@, n as int, d - 1)) by {
                    reveal(Walk::attained);
                }
                leave_keeps(a, *self, adj@, n as int);
            }
        }
    }

    /// While a node has no component there is a number for one more, and no
    /// node has it.
    proof fn fresh(self, a: Walk, adj: Seq<Vec<u32>>, n: int, v: int)
        requires
            a.inv(adj, n),
            0 <= v < n,
            a.on_stack@[v],
        ensures
            a.sizes@.len() < n,
            size_of(a.comp@, a.sizes@.len() as u32) == 0,
    {
        reveal(Walk::shape);
        reveal(Walk::flow);
        a.sizes_known(adj, n);
        let c = a.sizes@.len() as int;
        assert(!a.done(v));
        assert forall|i: int| 0 <= i < a.comp@.len() implies a.comp@[i] != c as u32 by {
            if a.comp@[i] != NIL {
                assert(a.done(i));
            }
        }
        size_of_bound(a.comp@, c as u32);
        let more = a.comp@.update(v, c as u32);
        assert forall|k: int| 0 <= k < c + 1 implies size_of(more, #[trigger] (k as u32)) > 0 by {
            size_of_update(a.comp@, v, c as u32, k as u32);
            if k < c {
                assert(a.sizes@[k] > 0);
            }
        }
        components_fit(more, c + 1);
    }
}

/// `r` splits the nodes of the graph into its components: two nodes are in one
/// component when each can be reached from the other, sizes count the nodes,
/// and edges never lead to a component with a greater number.
pub open spec fn splits(adj: Seq<Vec<u32>>, n: int, r: SccResult) -> bool {
    &&& r.node_count == n
    &&& r.comp@.len() == n
    &&& r.sizes@.len() <= n
    &&& forall|v: int| 0 <= v < n ==> #[trigger] r.comp@[v] < r.sizes@.len()
    &&& forall|v: int, w: int|
        0 <= v < n && 0 <= w < n ==> (#[trigger] r.comp@[v] == #[trigger] r.comp@[w] <==> mutual(
            adj,
            v,
            w,
        ))
    &&& forall|c: int|
        0 <= c < r.sizes@.len() ==> #[trigger] r.sizes@[c] == size_of(r.comp@, c as u32)
            && r.sizes@[c] > 0
    &&& forall|v: int, k: int|
        0 <= v < n && 0 <= k < adj[v]@.len() ==> r.comp@[(#[trigger] adj[v]@[k]) as int]
            <= r.comp@[v]
}

/// A search in depth: the nodes are taken up in ascending order, and the edges of
/// a node are followed in their order.
pub struct DepthFirst {
    /// The nodes that were met.
    pub met: Seq<bool>,
    /// The nodes that are being explored, each with the number of its edges that
    /// were followed.
    pub path: Seq<(u32, usize)>,
    /// The nodes that were left, in order.
    pub left: Seq<u32>,
    /// The next node to take up.
    pub next: int,
}

impl DepthFirst {
    pub open spec fn start(n: int) -> DepthFirst {
        DepthFirst {
            met: Seq::new(n as nat, |v: int| false),
            path: Seq::empty(),
            left: Seq::empty(),
            next: 0,
        }
    }

    /// Nothing is left to explore.
    pub open spec fn over(self, n: int) -> bool {
        self.path.len() == 0 && self.next >= n
    }

    pub open spec fn step(self, adj: Seq<Vec<u32>>, n: int) -> DepthFirst {
        if self.over(n) {
            self
        } else if self.path.len() == 0 {
            if self.met[self.next] {
                DepthFirst { next: self.next + 1, ..self }
            } else {
                DepthFirst {
                    met: self.met.update(self.next, true),
                    path: self.path.push((self.next as u32, 0)),
                    next: self.next + 1,
                    ..self
                }
            }
        } else {
            let (v, i) = self.path.last();
            let path = self.path.update(self.path.len() - 1, (v, (i + 1) as usize));
            if i >= adj[v as int]@.len() {
                DepthFirst { path: self.path.drop_last(), left: self.left.push(v), ..self }
            } else if self.met[adj[v as int]@[i as int] as int] {
                DepthFirst { path, ..self }
            } else {
                let w = adj[v as int]@[i as int];
                DepthFirst { met: self.met.update(w as int, true), path: path.push((w, 0)), ..self }
            }
        }
    }

    /// The search after `k` steps.
    pub open spec fn after(adj: Seq<Vec<u32>>, n: int, k: nat) -> DepthFirst
        decreases k,
    {
        if k == 0 {
            DepthFirst::start(n)
        } else {
            DepthFirst::after(adj, n, (k - 1) as nat).step(adj, n)
        }
    }

    /// A search that is over stays as it is, so that it has one end.
    pub proof fn one_end(adj: Seq<Vec<u32>>, n: int, j: nat, k: nat)
        requires
            j <= k,
            DepthFirst::after(adj, n, j).over(n),
        ensures
            DepthFirst::after(adj, n, k) == DepthFirst::after(adj, n, j),
        decreases k,
    {
        if j < k {
            DepthFirst::one_end(adj, n, j, (k - 1) as nat);
        }
    }
}

/// The last node of component `c` that was left, at position `i`, closed it.
pub open spec fn closes(left: Seq<u32>, comp: Seq<u32>, c: int, i: int) -> bool {
    &&& 0 <= i < left.len()
    &&& comp[left[i] as int] == c
    &&& forall|j: int| i < j < left.len() ==> comp[(#[trigger] left[j]) as int] != c
}

/// Component `c` was closed at position `at[c]`, one after the other.
pub open spec fn closed_at(left: Seq<u32>, comp: Seq<u32>, at: Seq<int>) -> bool {
    &&& forall|c: int| 0 <= c < at.len() ==> closes(left, comp, c, #[trigger] at[c])
    &&& forall|c: int, d: int| 0 <= c < d < at.len() ==> #[trigger] at[c] < #[trigger] at[d]
}

/// The first `k` components are numbered in the order in which a search in depth
/// closes them.
pub open spec fn in_closing_order(left: Seq<u32>, comp: Seq<u32>, k: int) -> bool {
    exists|at: Seq<int>| at.len() == k && #[trigger] closed_at(left, comp, at)
}

/// The components have the numbers that a search in depth gives them.
pub open spec fn numbered(adj: Seq<Vec<u32>>, n: int, r: SccResult) -> bool {
    exists|k: nat|
        (#[trigger] DepthFirst::after(adj, n, k)).over(n) && in_closing_order(
            DepthFirst::after(adj, n, k).left,
            r.comp@,
            r.sizes@.len() as int,
        )
}

/// The walk is where the search in depth is.
spec fn follows(w: Walk, d: DepthFirst, n: int) -> bool {
    &&& d.met.len() == n
    &&& forall|v: int| 0 <= v < n ==> #[trigger] d.met[v] == (w.indices@[v] != NIL)
    &&& d.path == w.call@
    &&& forall|i: int| 0 <= i < d.left.len() ==> #[trigger] d.left[i] < n
    &&& in_closing_order(d.left, w.comp@, w.sizes@.len() as int)
}

/// Leaving a node keeps components in the order of their closing.
proof fn leaving_orders(a: Walk, b: Walk, adj: Seq<Vec<u32>>, n: int, order: Seq<u32>)
    requires
        a.inv(adj, n),
        graph_ok(adj, n),
        a.call@.len() > 0,
        left(a, b, adj, n) || cut(a, b, adj, n),
        forall|i: int| 0 <= i < order.len() ==> #[trigger] order[i] < n,
        in_closing_order(order, a.comp@, a.sizes@.len() as int),
    ensures
        in_closing_order(order.push(a.call@.last().0), b.comp@, b.sizes@.len() as int),
        a.call@.last().0 < n,
{
    reveal(Walk::shape);
    reveal(Walk::calls);
    reveal(Walk::flow);
    a.sizes_known(adj, n);
    let k = a.sizes@.len() as int;
    let v = a.call@.last().0;
    let p = a.call@.len() - 1;
    assert(a.call@[p].0 == v && a.on_stack@[v as int]);
    assert(!a.done(v as int));
    let at = choose|at: Seq<int>| at.len() == k && #[trigger] closed_at(order, a.comp@, at);
    let more = order.push(v);
    assert forall|c: int| 0 <= c < k implies closes(more, b.comp@, c, #[trigger] at[c]) by {
        assert(closes(order, a.comp@, c, at[c]));
        let x = order[at[c]] as int;
        assert(a.comp@[x] != NIL);
        assert(!a.on_stack@[x]);
        assert(b.comp@[x] == c);
        assert forall|j: int| at[c] < j < more.len() implies b.comp@[(#[trigger] more[j]) as int]
            != c by {
            if j < order.len() {
                assert(more[j] == order[j]);
                assert(a.comp@[order[j] as int] != c);
            }
            assert(b.comp@[more[j] as int] == a.comp@[more[j] as int] || b.comp@[more[j] as int]
                == k as u32);
        }
    }
    if left(a, b, adj, n) {
        assert(closed_at(more, b.comp@, at));
    } else {
        let all = at.push(order.len() as int);
        assert(b.comp@[v as int] == k as u32);
        assert(closes(more, b.comp@, k, order.len() as int));
        assert forall|c: int| 0 <= c < all.len() implies closes(more, b.comp@, c, #[trigger] all[c]) by {
            if c < k {
                assert(all[c] == at[c]);
            }
        }
        assert forall|c: int, d: int| 0 <= c < d < all.len() implies #[trigger] all[c]
            < #[trigger] all[d] by {
            assert(closes(order, a.comp@, c, at[c]));
            if d < k {
                assert(at[c] < at[d]);
            }
        }
        assert(closed_at(more, b.comp@, all));
    }
}

/// The components of the nodes below `n`, numbered in the order in which a search
/// in depth closes them.
pub fn tarjan(n: usize, adj: &Vec<Vec<u32>>) -> (r: SccResult)
    requires
        graph_ok(adj@, n as int),
    ensures
        splits(adj@, n as int, r),
        numbered(adj@, n as int, r),
{
    let mut w = Walk {
        index: 0,
        indices: filled(n, NIL),
        lowlink: filled(n, 0),
        on_stack: filled(n, false),
        stack: Vec::new(),
        comp: filled(n, NIL),
        sizes: Vec::new(),
        call: Vec::new(),
        order: Ghost(Seq::empty()),
        seen: Ghost(Seq::new(n as nat, |i: int| 0)),
    };
    proof {
        reveal(Walk::shape);
        reveal(Walk::calls);
        reveal(Walk::flow);
        reveal(Walk::backs);
        reveal(Walk::spans);
        reveal(Walk::bounds);
        reveal(Walk::attained);
        assert(w.inv(adj@, n as int));
    }
    let ghost mut k: nat = 0;
    let ghost mut d = DepthFirst::start(n as int);
    assert(closed_at(d.left, w.comp@, Seq::<int>::empty()));
    assert(follows(w, d, n as int));
    let mut start: usize = 0;
    while start < n
        invariant
            start <= n,
            graph_ok(adj@, n as int),
            d == DepthFirst::after(adj@, n as int, k),
            d.next == start,
            follows(w, d, n as int),
            w.inv(adj@, n as int),
            w.call@.len() == 0,
            forall|v: int| 0 <= v < start ==> #[trigger] w.indices@[v] != NIL,
        decreases n - start,
    {
        proof {
            w.sizes_known(adj@, n as int);
        }
        proof {
            d = d.step(adj@, n as int);
            k = k + 1;
        }
        if w.indices[start] == NIL {
            w.enter(adj, n, start as u32);
            while w.call.len() > 0
                invariant
                    start < n,
                    graph_ok(adj@, n as int),
                    d == DepthFirst::after(adj@, n as int, k),
                    d.next == start + 1,
                    follows(w, d, n as int),
                    w.inv(adj@, n as int),
                    w.index <= n,
                    forall|v: int| 0 <= v <= start ==> #[trigger] w.indices@[v] != NIL,
                decreases n - w.index, rest(adj@, w.call@),
            {
                proof {
                    w.sizes_known(adj@, n as int);
                    rest_bound(adj@, w.call@);
                }
                let (v, ci): (u32, usize) = w.call[w.call.len() - 1];
                let ghost before = w;
                let ghost at = d;
                proof {
                    d = d.step(adj@, n as int);
                    k = k + 1;
                }
                if ci < adj[v as usize].len() {
                    let t: u32 = adj[v as usize][ci];
                    if w.indices[t as usize] == NIL {
                        w.enter(adj, n, t);
                    } else {
                        w.look(adj, n);
                    }
                } else {
                    w.leave(adj, n);
                    proof {
                        leaving_orders(before, w, adj@, n as int, at.left);
                    }
                }
                proof {
                    w.sizes_known(adj@, n as int);
                    rest_bound(adj@, w.call@);
                }
            }
        }
        start += 1;
    }
    proof {
        w.sizes_known(adj@, n as int);
        reveal(Walk::shape);
        reveal(Walk::flow);
        reveal(Walk::backs);
        assert forall|v: int| 0 <= v < n implies #[trigger] w.comp@[v] != NIL by {
            assert(w.indices@[v] != NIL);
        }
    }
    SccResult { comp: w.comp, sizes: w.sizes, node_count: n }
}

impl SccResult {
    /// Whether a component is a cycle: in a graph whose edges only run between
    /// materials and recipes, whether it has more than one node.
    pub fn is_cyclic(&self, comp_id: u32) -> (r: bool)
        requires
            comp_id < self.sizes@.len(),
        ensures
            r == (self.sizes@[comp_id as int] > 1),
    {
        self.sizes[comp_id as usize] > 1
    }

    /// Whether a node lies on a cycle.
    pub fn node_cyclic(&self, node: u32) -> (r: bool)
        requires
            node < self.comp@.len(),
            self.comp@[node as int] < self.sizes@.len(),
        ensures
            r == (self.sizes@[self.comp@[node as int] as int] > 1),
    {
        self.is_cyclic(self.comp[node as usize])
    }
}

proof fn size_of_two(comp: Seq<u32>, c: u32, v: int)
    requires
        0 <= v < comp.len(),
        comp[v] == c,
    ensures
        size_of(comp, c) > 1 <==> exists|w: int| 0 <= w < comp.len() && w != v && comp[w] == c,
{
    let rest = comp.update(v, if c == 0 { 1u32 } else { 0u32 });
    size_of_update(comp, v, if c == 0 { 1u32 } else { 0u32 }, c);
    size_of_bound(rest, c);
    if exists|w: int| 0 <= w < comp.len() && w != v && comp[w] == c {
        let w = choose|w: int| 0 <= w < comp.len() && w != v && comp[w] == c;
        assert(rest[w] == c);
    }
    if exists|i: int| 0 <= i < rest.len() && rest[i] == c {
        let i = choose|i: int| 0 <= i < rest.len() && rest[i] == c;
        assert(comp[i] == c);
    }
}

/// A node is cyclic exactly when some other node can be reached from it and
/// leads back to it.
pub proof fn cyclic_means_cycle(adj: Seq<Vec<u32>>, n: int, r: SccResult, v: int)
    requires
        splits(adj, n, r),
        0 <= v < n,
    ensures
        r.sizes@[r.comp@[v] as int] > 1 <==> exists|w: int|
            0 <= w < n && w != v && #[trigger] mutual(adj, v, w),
{
    size_of_two(r.comp@, r.comp@[v], v);
    assert(r.comp@[v] == r.comp@[v]);
    if exists|w: int| 0 <= w < n && w != v && r.comp@[w] == r.comp@[v] {
        let w = choose|w: int| 0 <= w < n && w != v && r.comp@[w] == r.comp@[v];
        assert(mutual(adj, v, w));
    }
    if exists|w: int| 0 <= w < n && w != v && #[trigger] mutual(adj, v, w) {
        let w = choose|w: int| 0 <= w < n && w != v && #[trigger] mutual(adj, v, w);
        assert(r.comp@[v] == r.comp@[w]);
    }
}

/// The edges of the production graph, information pages left out: a material
/// leads to the recipes that consume it, a recipe to what it produces. Recipe
/// `r` is node `m_count + r`.
pub open spec fn leads(g: KnowledgeGraph, v: int, w: int) -> bool {
    let m = g.m_count();
    if v < m {
        w >= m && g.plannable@[w - m] && g.consumes(w - m, v as u32)
    } else {
        w < m && g.plannable@[v - m] && g.produces(v - m, w as u32)
    }
}

/// `adj` lists the edges of the production graph.
pub open spec fn production_edges(g: KnowledgeGraph, adj: Seq<Vec<u32>>) -> bool {
    &&& adj.len() == g.m_count() + g.r_count()
    &&& forall|v: int|
        0 <= v < adj.len() ==> crate::graph::lists(
            (#[trigger] adj[v])@,
            adj.len() as int,
            |w: int| leads(g, v, w),
        )
}

/// Such lists of edges are fit for a walk.
pub proof fn production_edges_ok(g: KnowledgeGraph, adj: Seq<Vec<u32>>)
    requires
        g.wf(),
        production_edges(g, adj),
    ensures
        graph_ok(adj, adj.len() as int),
{
    assert forall|v: int, k: int| 0 <= v < adj.len() && 0 <= k < adj[v]@.len() implies (
    #[trigger] adj[v]@[k]) < adj.len() by {
        assert(crate::graph::lists(adj[v]@, adj.len() as int, |w: int| leads(g, v, w)));
    }
}

/// The nodes and edges of the production graph, for recipes that can be planned
/// with. Pages of tag members would join unrelated materials into one component.
pub fn build_adjacency(g: &KnowledgeGraph) -> (r: (usize, Vec<Vec<u32>>))
    requires
        g.wf(),
    ensures
        r.0 == g.m_count() + g.r_count(),
        production_edges(*g, r.1@),
        graph_ok(r.1@, r.0 as int),
{
    let m_count: usize = g.materials.len();
    let r_count: usize = g.recipes.len();
    let n: usize = m_count + r_count;
    let mut adj: Vec<Vec<u32>> = Vec::new();
    let mut m: usize = 0;
    while m < m_count
        invariant
            m <= m_count,
            m_count == g.m_count(),
            r_count == g.r_count(),
            n == m_count + r_count,
            g.wf(),
            adj@.len() == m,
            forall|v: int|
                0 <= v < m ==> crate::graph::lists(
                    (#[trigger] adj@[v])@,
                    n as int,
                    |w: int| leads(*g, v, w),
                ),
        decreases m_count - m,
    {
        let outs = consumer_nodes(g, m);
        adj.push(outs);
        m += 1;
    }
    let mut r: usize = 0;
    while r < r_count
        invariant
            r <= r_count,
            m_count == g.m_count(),
            r_count == g.r_count(),
            n == m_count + r_count,
            g.wf(),
            adj@.len() == m_count + r,
            forall|v: int|
                0 <= v < m_count + r ==> crate::graph::lists(
                    (#[trigger] adj@[v])@,
                    n as int,
                    |w: int| leads(*g, v, w),
                ),
        decreases r_count - r,
    {
        let outs = product_nodes(g, r);
        adj.push(outs);
        r += 1;
    }
    proof {
        production_edges_ok(*g, adj@);
    }
    (n, adj)
}

/// The nodes of the recipes that consume a material.
fn consumer_nodes(g: &KnowledgeGraph, m: usize) -> (r: Vec<u32>)
    requires
        g.wf(),
        m < g.m_count(),
    ensures
        crate::graph::lists(
            r@,
            g.m_count() + g.r_count(),
            |w: int| leads(*g, m as int, w),
        ),
{
    let m_count: usize = g.materials.len();
    let list = &g.consumers[m];
    let ghost p = |r: int| g.consumes(r, m as int as u32);
    let ghost q = |w: int| leads(*g, m as int, w);
    assert(crate::graph::lists(list@, g.r_count(), p));
    let mut out: Vec<u32> = Vec::new();
    let mut i: usize = 0;
    while i < list.len()
        invariant
            i <= list@.len(),
            g.wf(),
            m < m_count,
            m_count == g.m_count(),
            list@ == g.consumers@[m as int]@,
            p == (|r: int| g.consumes(r, m as int as u32)),
            q == (|w: int| leads(*g, m as int, w)),
            crate::graph::lists(list@, g.r_count(), p),
            forall|a: int, b: int|
                0 <= a < b < out@.len() ==> #[trigger] out@[a] < #[trigger] out@[b],
            forall|a: int|
                0 <= a < out@.len() ==> m_count <= #[trigger] out@[a] < m_count + g.r_count() && q(
                    out@[a] as int,
                ),
            i < list@.len() ==> forall|a: int|
                0 <= a < out@.len() ==> #[trigger] out@[a] < m_count + list@[i as int],
            forall|k: int|
                0 <= k < i && g.plannable@[(#[trigger] list@[k]) as int] ==> out@.contains(
                    (m_count + list@[k]) as u32,
                ),
        decreases list@.len() - i,
    {
        let r: u32 = list[i];
        let ghost out0 = out@;
        if g.is_plannable(r) {
            assert(p(list@[i as int] as int));
            out.push(m_count as u32 + r);
            assert(out@.last() == m_count + r);
            assert forall|k: int| 0 <= k < i && g.plannable@[(#[trigger] list@[k]) as int] implies out@.contains(
                (m_count + list@[k]) as u32,
            ) by {
                assert(out0.contains((m_count + list@[k]) as u32));
                let j = choose|j: int| 0 <= j < out0.len() && out0[j] == (m_count + list@[k]) as u32;
                assert(out@[j] == out0[j]);
            }
        }
        assert forall|a: int| i + 1 < list@.len() && 0 <= a < out@.len() implies #[trigger] out@[a]
            < m_count + list@[i + 1] by {
            assert(list@[i as int] < list@[i + 1]);
        }
        i += 1;
    }
    assert forall|x: int| 0 <= x < g.m_count() + g.r_count() && #[trigger] q(x) implies out@.contains(
        x as u32,
    ) by {
        assert(p(x - m_count));
        assert(list@.contains((x - m_count) as u32));
        let k = choose|k: int| 0 <= k < list@.len() && list@[k] == (x - m_count) as u32;
        assert(g.plannable@[list@[k] as int]);
    }
    out
}

/// The materials that some output slot of a recipe holds, with repetitions.
fn outputs_of(g: &KnowledgeGraph, r: usize) -> (out: Vec<u32>)
    requires
        g.wf(),
        r < g.r_count(),
    ensures
        forall|x: u32| #[trigger] out@.contains(x) <==> g.produces(r as int, x),
        forall|a: int| 0 <= a < out@.len() ==> #[trigger] out@[a] < g.m_count(),
{
    let slots = &g.recipes[r].outputs;
    let mut out: Vec<u32> = Vec::new();
    let mut s: usize = 0;
    while s < slots.len()
        invariant
            s <= slots@.len(),
            crate::graph::slots_ok(slots@, g.m_count()),
            forall|a: int|
                0 <= a < out@.len() ==> #[trigger] out@[a] < g.m_count() && crate::graph::mentions(
                    slots@,
                    out@[a],
                ),
            forall|t: int, a: int|
                0 <= t < s && 0 <= a < slots@[t].alts@.len() ==> out@.contains(
                    (#[trigger] slots@[t].alts@[a]).0,
                ),
        decreases slots@.len() - s,
    {
        let alts = &slots[s].alts;
        assert(crate::graph::slot_ok(slots@[s as int], g.m_count()));
        let mut a: usize = 0;
        while a < alts.len()
            invariant
                s < slots@.len(),
                alts@ == slots@[s as int].alts@,
                a <= alts@.len(),
                crate::graph::slot_ok(slots@[s as int], g.m_count()),
                forall|a: int|
                    0 <= a < out@.len() ==> #[trigger] out@[a] < g.m_count()
                        && crate::graph::mentions(slots@, out@[a]),
                forall|t: int, b: int|
                    (0 <= t < s && 0 <= b < slots@[t].alts@.len()) || (t == s && 0 <= b < a)
                        ==> out@.contains((#[trigger] slots@[t].alts@[b]).0),
            decreases alts@.len() - a,
        {
            let ghost out0 = out@;
            let x: u32 = alts[a].0;
            assert(crate::graph::mentions_at(slots@, x, s as int, a as int));
            out.push(x);
            assert(out@.last() == x);
            assert forall|t: int, b: int|
                (0 <= t < s && 0 <= b < slots@[t].alts@.len()) || (t == s && 0 <= b < a
                    + 1) implies out@.contains((#[trigger] slots@[t].alts@[b]).0) by {
                if !(t == s && b == a) {
                    assert(out0.contains(slots@[t].alts@[b].0));
                    let j = choose|j: int|
                        0 <= j < out0.len() && out0[j] == slots@[t].alts@[b].0;
                    assert(out@[j] == out0[j]);
                }
            }
            a += 1;
        }
        s += 1;
    }
    assert forall|x: u32| #[trigger] out@.contains(x) <==> g.produces(r as int, x) by {
        if g.produces(r as int, x) {
            let (t, a) = choose|t: int, a: int| #[trigger]
                crate::graph::mentions_at(slots@, x, t, a);
            assert(out@.contains(slots@[t].alts@[a].0));
        }
    }
    out
}

/// The nodes of the materials that a recipe produces.
fn product_nodes(g: &KnowledgeGraph, r: usize) -> (out: Vec<u32>)
    requires
        g.wf(),
        r < g.r_count(),
    ensures
        crate::graph::lists(
            out@,
            g.m_count() + g.r_count(),
            |w: int| leads(*g, g.m_count() + r as int, w),
        ),
{
    let ghost q = |w: int| leads(*g, g.m_count() + r as int, w);
    if !g.is_plannable(r as u32) {
        return Vec::new();
    }
    let all = outputs_of(g, r);
    let out = sort_dedup(&all);
    proof {
        assert forall|a: int| 0 <= a < out@.len() implies #[trigger] out@[a] < g.m_count() && q(
            out@[a] as int,
        ) by {
            assert(out@.contains(out@[a]));
            assert(all@.contains(out@[a]));
            let j = choose|j: int| 0 <= j < all@.len() && all@[j] == out@[a];
            assert(all@[j] < g.m_count());
        }
        assert forall|x: int| 0 <= x < g.m_count() + g.r_count() && #[trigger] q(x) implies out@.contains(
            x as u32,
        ) by {
            assert(all@.contains(x as u32));
        }
    }
    out
}

} // verus!

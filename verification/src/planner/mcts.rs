//! Monte Carlo tree search over assignments of recipes.
//!
//! A node is an assignment; a child of it gives one material another recipe. A
//! node is judged by its whole expansion, and the tree is walked by the upper
//! confidence bound, which weighs the mean reward (the negative score) of a child
//! against how seldom it was visited. The root is the expansion with the best
//! recipes, so the result is never worse than that.
use std::collections::HashSet;

use vstd::prelude::*;

use crate::analysis::Analysis;
use crate::choices::Choices;
use crate::graph::KnowledgeGraph;
use crate::model::{MaterialId, RecipeId};
use crate::plan::{Plan, PlanMetrics};
use crate::planner::assemble::Assembly;
use crate::planner::beam::recipe_alternatives;
use crate::planner::score::{is_better, rate};
use crate::planner::tree::{expand_tree, Expanded, Expansion, PlanRequest, TreeResult};
use crate::scalar::{Arithmetic, Scalar};
use crate::text::{decimal_string, joined};

verus! {

/// How a tree search is run.
#[derive(Clone, Debug)]
pub struct MctsOptions {
    /// How many simulations there are.
    pub iterations: usize,
    /// How much seldom visited nodes are preferred.
    pub exploration: Scalar,
    /// How many other recipes are tried for a material.
    pub candidate_limit: usize,
    /// The highest tier of machines; none means no limit.
    pub max_tier: Option<u8>,
}

impl MctsOptions {
    /// The options that are used where none are given.
    pub fn standard<A: Arithmetic>(ar: &A) -> (r: Self)
        ensures
            r == (MctsOptions {
                iterations: 400,
                exploration: ar.ratio_spec(7, 10),
                candidate_limit: 3,
                max_tier: None,
            }),
    {
        MctsOptions {
            iterations: 400,
            exploration: ar.ratio(7, 10),
            candidate_limit: 3,
            max_tier: None,
        }
    }
}

/// A node of the tree.
pub struct Knot {
    pub choices: Seq<(MaterialId, RecipeId)>,
    pub result: Expanded,
    pub score: Scalar,
    pub visits: usize,
    pub total_reward: Scalar,
    pub parent: Option<usize>,
    pub children: Seq<usize>,
    /// The changes that were not tried yet.
    pub untried: Seq<(MaterialId, RecipeId)>,
    /// The changes are known.
    pub opened: bool,
}

/// A tree search on its way.
pub struct Forest {
    pub nodes: Seq<Knot>,
    /// The node with the best score.
    pub best: int,
    pub best_score: Scalar,
}

/// A tree search.
pub struct Mcts<'a, A> {
    pub ar: &'a A,
    pub g: &'a KnowledgeGraph,
    pub an: &'a Analysis,
    pub req: PlanRequest,
    pub opts: &'a MctsOptions,
}

/// Parents come before their children.
pub open spec fn tree_shaped(nodes: Seq<Knot>) -> bool {
    &&& nodes.len() > 0
    &&& forall|i: int|
        0 <= i < nodes.len() ==> ((#[trigger] nodes[i]).parent matches Some(p) ==> p < i)
    &&& forall|i: int, c: int|
        #![trigger nodes[i].children[c]]
        0 <= i < nodes.len() && 0 <= c < nodes[i].children.len() ==> i < nodes[i].children[c]
            < nodes.len()
}

impl<'a, A: Arithmetic> Mcts<'a, A> {
    /// The request is one for the graph, with the tier of the options.
    pub open spec fn ok(self) -> bool {
        &&& self.an.fits(*self.ar, *self.g)
        &&& self.req.target < self.g.m_count()
        &&& self.req.max_tier == self.opts.max_tier
    }

    /// What nodes are judged by.
    pub open spec fn expansion(self) -> Expansion<'a, A> {
        Expansion { ar: self.ar, g: self.g, an: self.an, req: &self.req }
    }

    /// What an operation counts.
    pub open spec fn penalty(self) -> Scalar {
        self.ar.ratio_spec(1, 1000)
    }

    pub open spec fn score(self, e: Expanded) -> Scalar {
        crate::planner::score::score_of(*self.ar, self.penalty(), e)
    }

    /// A new node.
    pub open spec fn knot(
        self,
        choices: Seq<(MaterialId, RecipeId)>,
        result: Expanded,
        parent: Option<usize>,
    ) -> Knot {
        Knot {
            choices,
            result,
            score: self.score(result),
            visits: 0,
            total_reward: self.ar.ratio_spec(0, 1),
            parent,
            children: Seq::empty(),
            untried: Seq::empty(),
            opened: false,
        }
    }

    /// The tree before the first simulation: the expansion with the best recipes.
    pub open spec fn start(self) -> Forest {
        let e = self.expansion().expanded(Seq::empty());
        Forest { nodes: seq![self.knot(e.choices, e, None)], best: 0, best_score: self.score(e) }
    }

    /// The other recipes that are tried for an entry.
    pub open spec fn tried(self, entry: (MaterialId, RecipeId)) -> Seq<RecipeId> {
        crate::planner::beam::alternatives(
            *self.ar,
            *self.g,
            *self.an,
            entry.0,
            Some(entry.1),
            self.opts.candidate_limit,
            self.opts.max_tier,
        )
    }

    /// The changes of the first `p` entries of an assignment.
    pub open spec fn actions_to(
        self,
        choices: Seq<(MaterialId, RecipeId)>,
        p: int,
    ) -> Seq<(MaterialId, RecipeId)>
        decreases p,
    {
        if p <= 0 {
            Seq::empty()
        } else {
            self.actions_to(choices, p - 1) + self.tried(choices[p - 1]).map_values(
                |r: RecipeId| (choices[p - 1].0, r),
            )
        }
    }

    /// The mean reward of a node.
    pub open spec fn mean(self, n: Knot) -> Scalar {
        if n.visits == 0 {
            self.ar.ratio_spec(0, 1)
        } else {
            self.ar.over_spec(n.total_reward, self.ar.ratio_spec(n.visits as u64, 1))
        }
    }

    /// The upper confidence bound of a child.
    pub open spec fn bound(self, parent: Knot, child: Knot) -> Scalar {
        let visits = if parent.visits < 1 { 1usize } else { parent.visits };
        if child.visits == 0 {
            self.ar.infinity_spec()
        } else {
            self.ar.plus_spec(
                self.mean(child),
                self.ar.times_spec(
                    self.opts.exploration,
                    self.ar.sqrt_spec(
                        self.ar.over_spec(
                            self.ar.ln_spec(self.ar.ratio_spec(visits as u64, 1)),
                            self.ar.ratio_spec(child.visits as u64, 1),
                        ),
                    ),
                ),
            )
        }
    }

    /// The best of the first `c` children of node `i`, with its bound.
    pub open spec fn best_child_to(self, nodes: Seq<Knot>, i: int, c: int) -> (Scalar, usize)
        decreases c,
    {
        if c <= 0 {
            (
                self.ar.minus_spec(self.ar.ratio_spec(0, 1), self.ar.infinity_spec()),
                nodes[i].children[0],
            )
        } else {
            let best = self.best_child_to(nodes, i, c - 1);
            let child = nodes[i].children[c - 1];
            let bound = self.bound(nodes[i], nodes[child as int]);
            if self.ar.lt_spec(best.0, bound) {
                (bound, child)
            } else {
                best
            }
        }
    }

    /// The node that is taken up, looking from node `i`: down along the best
    /// children, to one with untried changes or without children.
    pub open spec fn select(self, nodes: Seq<Knot>, i: int) -> int
        decreases nodes.len() - i,
    {
        if nodes[i].untried.len() > 0 || nodes[i].children.len() == 0 {
            i
        } else {
            let next = self.best_child_to(nodes, i, nodes[i].children.len() as int).1 as int;
            if i < next < nodes.len() {
                self.select(nodes, next)
            } else {
                i
            }
        }
    }

    /// Node `i` with its changes known.
    pub open spec fn open(self, nodes: Seq<Knot>, i: int) -> Seq<Knot> {
        if !nodes[i].opened && nodes[i].children.len() == 0 {
            nodes.update(
                i,
                Knot {
                    untried: self.actions_to(nodes[i].choices, nodes[i].choices.len() as int),
                    opened: true,
                    ..nodes[i]
                },
            )
        } else {
            nodes
        }
    }

    /// The tree after node `i` was given a child, where a change is untried.
    pub open spec fn grow(self, nodes: Seq<Knot>, i: int) -> Seq<Knot> {
        if nodes[i].untried.len() == 0 {
            nodes
        } else {
            let (m, r) = nodes[i].untried[0];
            let choices = crate::choices::with_choice(nodes[i].choices, m, r);
            let e = self.expansion().expanded(choices);
            nodes.update(
                i,
                Knot {
                    untried: nodes[i].untried.drop_first(),
                    children: nodes[i].children.push(nodes.len() as usize),
                    ..nodes[i]
                },
            ).push(self.knot(choices, e, Some(i as usize)))
        }
    }

    /// The node that is judged when node `i` was taken up.
    pub open spec fn judged(self, nodes: Seq<Knot>, i: int) -> int {
        if nodes[i].untried.len() == 0 {
            i
        } else {
            nodes.len() as int
        }
    }

    /// The tree after node `i` and all above it were credited with a reward.
    pub open spec fn credit(self, nodes: Seq<Knot>, i: int, reward: Scalar) -> Seq<Knot>
        decreases i,
    {
        let next = nodes.update(
            i,
            Knot {
                visits: crate::planner::beam::one_more(nodes[i].visits),
                total_reward: self.ar.plus_spec(nodes[i].total_reward, reward),
                ..nodes[i]
            },
        );
        match nodes[i].parent {
            Some(p) => if 0 <= p < i {
                self.credit(next, p as int, reward)
            } else {
                next
            },
            None => next,
        }
    }

    /// The state after one simulation.
    pub open spec fn simulate(self, f: Forest) -> Forest {
        let at = self.select(f.nodes, 0);
        let opened = self.open(f.nodes, at);
        let new = self.judged(opened, at);
        let grown = self.grow(opened, at);
        let sc = grown[new].score;
        let helps = crate::planner::score::better(*self.ar, sc, f.best_score);
        Forest {
            nodes: self.credit(
                grown,
                new,
                self.ar.minus_spec(self.ar.ratio_spec(0, 1), sc),
            ),
            best: if helps { new } else { f.best },
            best_score: if helps { sc } else { f.best_score },
        }
    }

    /// The state after `k` simulations.
    pub open spec fn simulated(self, k: nat) -> Forest
        decreases k,
    {
        if k == 0 {
            self.start()
        } else {
            self.simulate(self.simulated((k - 1) as nat))
        }
    }
}

/// A node of the tree.
struct Node {
    choices: Choices,
    result: TreeResult,
    score: Scalar,
    visits: usize,
    total_reward: Scalar,
    parent: Option<usize>,
    children: Vec<usize>,
    untried: Vec<(MaterialId, RecipeId)>,
    opened: bool,
}

impl View for Node {
    type V = Knot;

    closed spec fn view(&self) -> Knot {
        Knot {
            choices: self.choices.entries@,
            result: self.result@,
            score: self.score,
            visits: self.visits,
            total_reward: self.total_reward,
            parent: self.parent,
            children: self.children@,
            untried: self.untried@,
            opened: self.opened,
        }
    }
}

spec fn knots(nodes: Seq<Node>) -> Seq<Knot> {
    nodes.map_values(|n: Node| n@)
}

impl Node {
    spec fn suits<'a, A: Arithmetic>(self, x: Expansion<'a, A>) -> bool {
        &&& self.choices.suits(x)
        &&& self.result.suits(x)
        &&& forall|i: int|
            0 <= i < self.untried@.len() ==> (#[trigger] self.untried@[i]).0 < x.g.m_count()
                && x.fit_for(self.untried@[i].1, self.untried@[i].0)
    }
}

spec fn nodes_suit<'a, A: Arithmetic>(nodes: Seq<Node>, x: Expansion<'a, A>) -> bool {
    &&& tree_shaped(knots(nodes))
    &&& forall|i: int| 0 <= i < nodes.len() ==> (#[trigger] nodes[i]).suits(x)
}

impl<'a, A: Arithmetic> Mcts<'a, A> {
    fn expand(&self, choices: &Choices) -> (r: TreeResult)
        requires
            self.ok(),
            choices.suits(self.expansion()),
        ensures
            r.suits(self.expansion()),
            r@ == self.expansion().expanded(choices.entries@),
    {
        let r = expand_tree(self.ar, self.g, self.an, &self.req, choices);
        proof {
            self.expansion().expanded_is(choices.entries@, r@);
            self.expansion().stays_lawful(*choices, r@);
        }
        r
    }

    fn node(&self, choices: Choices, result: TreeResult, parent: Option<usize>) -> (n: Node)
        requires
            choices.suits(self.expansion()),
            result.suits(self.expansion()),
        ensures
            n@ == self.knot(choices.entries@, result@, parent),
            n.suits(self.expansion()),
    {
        let score = rate(self.ar, self.ar.ratio(1, 1000), &result);
        let n = Node {
            choices,
            result,
            score,
            visits: 0,
            total_reward: self.ar.ratio(0, 1),
            parent,
            children: Vec::new(),
            untried: Vec::new(),
            opened: false,
        };
        assert(n@.children =~= Seq::empty());
        assert(n@.untried =~= Seq::empty());
        n
    }

    /// The changes of an assignment, in the order of its entries.
    fn build_untried(&self, choices: &Choices) -> (r: Vec<(MaterialId, RecipeId)>)
        requires
            self.ok(),
            choices.suits(self.expansion()),
        ensures
            r@ == self.actions_to(choices.entries@, choices.entries@.len() as int),
            forall|i: int|
                0 <= i < r@.len() ==> (#[trigger] r@[i]).0 < self.g.m_count()
                    && self.expansion().fit_for(r@[i].1, r@[i].0),
    {
        let mut r: Vec<(MaterialId, RecipeId)> = Vec::new();
        let mut p: usize = 0;
        while p < choices.entries.len()
            invariant
                p <= choices.entries@.len(),
                self.ok(),
                choices.suits(self.expansion()),
                r@ == self.actions_to(choices.entries@, p as int),
                forall|i: int|
                    0 <= i < r@.len() ==> (#[trigger] r@[i]).0 < self.g.m_count()
                        && self.expansion().fit_for(r@[i].1, r@[i].0),
            decreases choices.entries@.len() - p,
        {
            let (m, cur): (u32, u32) = choices.entries[p];
            assert(choices.entries@[p as int].0 < self.g.m_count());
            let alts = recipe_alternatives(
                self.ar,
                self.g,
                self.an,
                m,
                Some(cur),
                self.opts.candidate_limit,
                self.opts.max_tier,
            );
            proof {
                crate::planner::beam::alternatives_make(
                    *self.ar,
                    *self.g,
                    *self.an,
                    m,
                    Some(cur),
                    self.opts.candidate_limit,
                    self.opts.max_tier,
                );
            }
            let ghost before = r@;
            let ghost paired = alts@.map_values(|x: RecipeId| (m, x));
            let mut a: usize = 0;
            assert(r@ =~= before + paired.take(0));
            while a < alts.len()
                invariant
                    a <= alts@.len(),
                    m < self.g.m_count(),
                    forall|i: int|
                        0 <= i < alts@.len() ==> self.expansion().fit_for(#[trigger] alts@[i], m),
                    paired == alts@.map_values(|x: RecipeId| (m, x)),
                    r@ == before + paired.take(a as int),
                    forall|i: int|
                        0 <= i < r@.len() ==> (#[trigger] r@[i]).0 < self.g.m_count()
                            && self.expansion().fit_for(r@[i].1, r@[i].0),
                decreases alts@.len() - a,
            {
                r.push((m, alts[a]));
                a += 1;
                assert(r@ =~= before + paired.take(a as int));
            }
            assert(paired.take(alts@.len() as int) =~= paired);
            assert(paired =~= self.tried(choices.entries@[p as int]).map_values(
                |r: RecipeId| (choices.entries@[p as int].0, r),
            ));
            p += 1;
        }
        r
    }

    fn uct(&self, parent: &Node, child: &Node) -> (r: Scalar)
        ensures
            r == self.bound(parent@, child@),
    {
        let visits: usize = if parent.visits < 1 { 1 } else { parent.visits };
        if child.visits == 0 {
            self.ar.infinity()
        } else {
            let often = self.ar.ratio(child.visits as u64, 1);
            let mean = self.ar.over(child.total_reward, often);
            let rest = self.ar.over(self.ar.ln(self.ar.ratio(visits as u64, 1)), often);
            self.ar.plus(mean, self.ar.times(self.opts.exploration, self.ar.sqrt(rest)))
        }
    }

    fn find_leaf(&self, nodes: &Vec<Node>) -> (r: usize)
        requires
            nodes_suit(nodes@, self.expansion()),
        ensures
            r == self.select(knots(nodes@), 0),
            r < nodes@.len(),
    {
        let mut cur: usize = 0;
        let ghost shown = knots(nodes@);
        while nodes[cur].untried.len() == 0 && nodes[cur].children.len() > 0
            invariant
                shown == knots(nodes@),
                nodes_suit(nodes@, self.expansion()),
                cur < nodes@.len(),
                self.select(shown, 0) == self.select(shown, cur as int),
            decreases nodes@.len() - cur,
        {
            assert(shown[cur as int] == nodes@[cur as int]@);
            assert(cur < shown[cur as int].children[0]);
            let mut best = self.ar.minus(self.ar.ratio(0, 1), self.ar.infinity());
            let mut child: usize = nodes[cur].children[0];
            let mut c: usize = 0;
            while c < nodes[cur].children.len()
                invariant
                    c <= nodes@[cur as int].children@.len(),
                    shown == knots(nodes@),
                    nodes_suit(nodes@, self.expansion()),
                    cur < nodes@.len(),
                    shown[cur as int] == nodes@[cur as int]@,
                    cur < child < nodes@.len(),
                    (best, child) == self.best_child_to(shown, cur as int, c as int),
                decreases nodes@[cur as int].children@.len() - c,
            {
                let ch: usize = nodes[cur].children[c];
                assert(cur < shown[cur as int].children[c as int] < nodes@.len());
                assert(shown[ch as int] == nodes@[ch as int]@);
                let bound = self.uct(&nodes[cur], &nodes[ch]);
                if self.ar.lt(best, bound) {
                    best = bound;
                    child = ch;
                }
                c += 1;
            }
            cur = child;
        }
        assert(shown[cur as int] == nodes@[cur as int]@);
        cur
    }
}

/// Nodes whose results, scores and places did not change.
spec fn like(a: Knot, b: Knot) -> bool {
    &&& a.choices == b.choices
    &&& a.result == b.result
    &&& a.score == b.score
    &&& a.parent == b.parent
    &&& a.children == b.children
    &&& a.untried == b.untried
    &&& a.opened == b.opened
}

impl<'a, A: Arithmetic> Mcts<'a, A> {
    /// Every node has the score of its own result.
    pub open spec fn scored(self, nodes: Seq<Knot>) -> bool {
        forall|i: int| 0 <= i < nodes.len() ==> (#[trigger] nodes[i]).score == self.score(
            nodes[i].result,
        )
    }

    fn run_open(&self, nodes: &mut Vec<Node>, i: usize)
        requires
            self.ok(),
            nodes_suit(old(nodes)@, self.expansion()),
            i < old(nodes)@.len(),
            self.scored(knots(old(nodes)@)),
        ensures
            nodes_suit(final(nodes)@, self.expansion()),
            knots(final(nodes)@) == self.open(knots(old(nodes)@), i as int),
            self.scored(knots(final(nodes)@)),
    {
        let ghost start = knots(nodes@);
        assert(start[i as int] == nodes@[i as int]@);
        if !nodes[i].opened && nodes[i].children.len() == 0 {
            let untried = self.build_untried(&nodes[i].choices);
            nodes[i].untried = untried;
            nodes[i].opened = true;
            let ghost end = self.open(start, i as int);
            assert(knots(nodes@) =~= end);
            assert(tree_shaped(end)) by {
                assert forall|j: int, c: int|
                    #![trigger end[j].children[c]]
                    0 <= j < end.len() && 0 <= c < end[j].children.len() implies j
                    < end[j].children[c] < end.len() by {
                    assert(end[j].children[c] == start[j].children[c]);
                }
                assert forall|j: int| 0 <= j < end.len() implies ((
                #[trigger] end[j]).parent matches Some(p) ==> p < j) by {
                    assert(end[j].parent == start[j].parent);
                }
            }
            assert forall|j: int| 0 <= j < end.len() implies (#[trigger] end[j]).score
                == self.score(end[j].result) by {
                assert(start[j].score == self.score(start[j].result));
            }
        }
    }

    fn run_grow(&self, nodes: &mut Vec<Node>, i: usize) -> (new: usize)
        requires
            self.ok(),
            nodes_suit(old(nodes)@, self.expansion()),
            i < old(nodes)@.len(),
            self.scored(knots(old(nodes)@)),
        ensures
            nodes_suit(final(nodes)@, self.expansion()),
            knots(final(nodes)@) == self.grow(knots(old(nodes)@), i as int),
            new == self.judged(knots(old(nodes)@), i as int),
            new < final(nodes)@.len(),
            final(nodes)@.len() >= old(nodes)@.len(),
            self.scored(knots(final(nodes)@)),
    {
        let ghost start = knots(nodes@);
        assert(start[i as int] == nodes@[i as int]@);
        if nodes[i].untried.len() == 0 {
            return i;
        }
        let (m, r): (u32, u32) = nodes[i].untried.remove(0);
        let ghost left = nodes@[i as int].untried@;
        assert(left =~= start[i as int].untried.drop_first());
        let mut choices = nodes[i].choices.clone();
        choices.insert(m, r);
        proof {
            let n = old(nodes)@[i as int];
            assert(n.untried@[0] == (m, r));
            assert(n.suits(self.expansion()));
            self.expansion().change_suits(n.choices, choices, m, r);
        }
        let result = self.expand(&choices);
        let new: usize = nodes.len();
        let node = self.node(choices, result, Some(i));
        nodes[i].children.push(new);
        nodes.push(node);
        let ghost end = self.grow(start, i as int);
        assert(knots(nodes@) =~= end);
        assert(tree_shaped(end)) by {
            assert forall|j: int, c: int|
                #![trigger end[j].children[c]]
                0 <= j < end.len() && 0 <= c < end[j].children.len() implies j
                < end[j].children[c] < end.len() by {
                if j < start.len() && c < start[j].children.len() {
                    assert(end[j].children[c] == start[j].children[c]);
                }
            }
            assert forall|j: int| 0 <= j < end.len() implies ((
            #[trigger] end[j]).parent matches Some(p) ==> p < j) by {
                if j < start.len() {
                    assert(end[j].parent == start[j].parent);
                }
            }
        }
        assert forall|j: int| 0 <= j < end.len() implies (#[trigger] end[j]).score == self.score(
            end[j].result,
        ) by {
            if j < start.len() {
                assert(start[j].score == self.score(start[j].result));
            }
        }
        assert forall|j: int| 0 <= j < nodes@.len() implies (#[trigger] nodes@[j]).suits(self.expansion()) by {
            if j < start.len() {
                let was = old(nodes)@[j];
                assert(was.suits(self.expansion()));
                assert forall|k: int| 0 <= k < nodes@[j].untried@.len() implies (
                #[trigger] nodes@[j].untried@[k]).0 < self.g.m_count() && self.expansion().fit_for(
                    nodes@[j].untried@[k].1,
                    nodes@[j].untried@[k].0,
                ) by {
                    if j == i {
                        assert(nodes@[j].untried@[k] == was.untried@[k + 1]);
                    } else {
                        assert(nodes@[j].untried@[k] == was.untried@[k]);
                    }
                }
            }
        }
        new
    }

    fn run_credit(&self, nodes: &mut Vec<Node>, at: usize, reward: Scalar)
        requires
            nodes_suit(old(nodes)@, self.expansion()),
            at < old(nodes)@.len(),
            self.scored(knots(old(nodes)@)),
        ensures
            nodes_suit(final(nodes)@, self.expansion()),
            knots(final(nodes)@) == self.credit(knots(old(nodes)@), at as int, reward),
            final(nodes)@.len() == old(nodes)@.len(),
            self.scored(knots(final(nodes)@)),
            forall|j: int|
                0 <= j < final(nodes)@.len() ==> (#[trigger] knots(final(nodes)@)[j]).score
                    == knots(old(nodes)@)[j].score,
    {
        let ghost start = knots(nodes@);
        let ghost end = self.credit(start, at as int, reward);
        let mut i: usize = at;
        let mut going = true;
        while going
            invariant
                nodes@.len() == start.len(),
                nodes_suit(nodes@, self.expansion()),
                i < nodes@.len(),
                self.scored(knots(nodes@)),
                going ==> self.credit(knots(nodes@), i as int, reward) == end,
                !going ==> knots(nodes@) == end,
                forall|j: int|
                    0 <= j < nodes@.len() ==> (#[trigger] knots(nodes@)[j]).score == start[j].score,
            decreases going as int, i,
        {
            let ghost before = knots(nodes@);
            let ghost was = nodes@;
            assert(before[i as int] == nodes@[i as int]@);
            let visits: usize = crate::planner::beam::count_one(nodes[i].visits);
            let total = self.ar.plus(nodes[i].total_reward, reward);
            nodes[i].visits = visits;
            nodes[i].total_reward = total;
            let ghost after = knots(nodes@);
            proof {
                assert(after =~= before.update(
                    i as int,
                    Knot { visits, total_reward: total, ..before[i as int] },
                ));
                assert forall|j: int| 0 <= j < after.len() implies like(
                    #[trigger] after[j],
                    before[j],
                ) by {}
                assert(tree_shaped(after)) by {
                    assert forall|j: int, c: int|
                        #![trigger after[j].children[c]]
                        0 <= j < after.len() && 0 <= c < after[j].children.len() implies j
                        < after[j].children[c] < after.len() by {
                        assert(like(after[j], before[j]));
                        assert(after[j].children[c] == before[j].children[c]);
                    }
                    assert forall|j: int| 0 <= j < after.len() implies ((
                    #[trigger] after[j]).parent matches Some(p) ==> p < j) by {
                        assert(like(after[j], before[j]));
                    }
                }
                assert forall|j: int| 0 <= j < after.len() implies (#[trigger] after[j]).score
                    == self.score(after[j].result) by {
                    assert(like(after[j], before[j]));
                }
                assert forall|j: int| 0 <= j < nodes@.len() implies (#[trigger] nodes@[j]).suits(
                    self.expansion(),
                ) by {
                    assert(was[j].suits(self.expansion()));
                }
            }
            match nodes[i].parent {
                Some(p) => {
                    assert(before[i as int].parent == Some(p));
                    i = p;
                },
                None => {
                    going = false;
                },
            }
        }
    }

    fn run_simulate(&self, nodes: &mut Vec<Node>, best: &mut usize, best_score: &mut Scalar)
        requires
            self.ok(),
            nodes_suit(old(nodes)@, self.expansion()),
            *old(best) < old(nodes)@.len(),
            self.scored(knots(old(nodes)@)),
            knots(old(nodes)@)[*old(best) as int].score == *old(best_score),
        ensures
            nodes_suit(final(nodes)@, self.expansion()),
            *final(best) < final(nodes)@.len(),
            (Forest {
                nodes: knots(final(nodes)@),
                best: *final(best) as int,
                best_score: *final(best_score),
            }) == self.simulate(
                Forest {
                    nodes: knots(old(nodes)@),
                    best: *old(best) as int,
                    best_score: *old(best_score),
                },
            ),
            self.scored(knots(final(nodes)@)),
            knots(final(nodes)@)[*final(best) as int].score == *final(best_score),
            *final(best_score) == *old(best_score) || crate::planner::score::better(
                *self.ar,
                *final(best_score),
                *old(best_score),
            ),
    {
        let ghost start = knots(nodes@);
        let at = self.find_leaf(nodes);
        self.run_open(nodes, at);
        let ghost opened = knots(nodes@);
        assert(opened[*best as int].score == start[*best as int].score);
        let new = self.run_grow(nodes, at);
        let ghost grown = knots(nodes@);
        assert(grown[*best as int].score == opened[*best as int].score);
        assert(grown[new as int] == nodes@[new as int]@);
        let sc = nodes[new].score;
        if is_better(self.ar, sc, *best_score) {
            *best_score = sc;
            *best = new;
        }
        let reward = self.ar.minus(self.ar.ratio(0, 1), sc);
        self.run_credit(nodes, new, reward);
        assert(knots(nodes@)[*best as int].score == grown[*best as int].score);
    }
}

impl<'a, A: Arithmetic> Mcts<'a, A> {
    /// The note on what a search did.
    pub open spec fn note(self, f: Forest) -> Seq<char> {
        "MCTS："@ + crate::text::decimal(self.opts.iterations as nat) + " 次模拟 / "@
            + crate::text::decimal((f.nodes.len() - 1) as nat) + " 个节点，最优得分 "@
            + self.ar.decimals_spec(f.best_score, 4)@ + "（基线 "@ + self.ar.decimals_spec(
            self.start().best_score,
            4,
        )@ + if crate::planner::score::better(*self.ar, f.best_score, self.start().best_score) {
            Seq::<char>::empty()
        } else {
            "，未改进"@
        } + "）"@
    }

    /// The plan of a finished search.
    pub open spec fn plans(self, f: Forest, plan: Plan) -> bool {
        let e = f.nodes[f.best].result;
        &&& (Assembly { ar: self.ar, g: self.g, an: self.an, alts: None }).assembles(
            self.req.target,
            self.req.rate_per_min,
            "mcts"@,
            e.ops,
            e.raw,
            e.byproducts,
            e.notes.push(self.note(f)),
            plan,
        )
        &&& plan.metrics == PlanMetrics::none_spec(self.ar.ratio_spec(0, 1))
        &&& plan.elapsed_ms == self.ar.ratio_spec(0, 1)
    }

    /// The best score is the score of the best node, and is that of the root or
    /// was reached from it by getting better step by step. The recipes of the best
    /// node are allowed.
    pub open spec fn no_worse(self, f: Forest) -> bool {
        &&& 0 <= f.best < f.nodes.len()
        &&& self.expansion().lawful(self.expansion().expanded(Seq::empty()))
        &&& self.expansion().lawful(f.nodes[f.best].result)
        &&& f.best_score == self.score(f.nodes[f.best].result)
        &&& crate::planner::score::descends(*self.ar, self.start().best_score, f.best_score)
    }

    fn write_note(&self, added: usize, best_score: Scalar, first_score: Scalar) -> (r: String)
        ensures
            forall|f: Forest|
                #![trigger self.note(f)]
                f.nodes.len() == added + 1 && f.best_score == best_score
                    && self.start().best_score == first_score ==> r@ == self.note(f),
    {
        let a = joined("MCTS：", decimal_string(self.opts.iterations as u64).as_str());
        let b = joined(a.as_str(), " 次模拟 / ");
        let c = joined(b.as_str(), decimal_string(added as u64).as_str());
        let d = joined(c.as_str(), " 个节点，最优得分 ");
        let e = joined(d.as_str(), self.ar.decimals(best_score, 4).as_str());
        let f = joined(e.as_str(), "（基线 ");
        let h = joined(f.as_str(), self.ar.decimals(first_score, 4).as_str());
        if is_better(self.ar, best_score, first_score) {
            assert(h@ + Seq::<char>::empty() =~= h@);
            joined(h.as_str(), "）")
        } else {
            joined(joined(h.as_str(), "，未改进").as_str(), "）")
        }
    }
}

/// The request of a search.
pub open spec fn request(target: MaterialId, rate_per_min: Scalar, opts: MctsOptions) -> PlanRequest {
    PlanRequest { target, rate_per_min, max_ops: 200_000, max_tier: opts.max_tier }
}

/// Plans by a tree search. The plan is never worse than the one without a search.
pub fn plan_mcts<A: Arithmetic>(
    ar: &A,
    g: &KnowledgeGraph,
    an: &Analysis,
    target: MaterialId,
    rate_per_min: Scalar,
    opts: &MctsOptions,
) -> (plan: Plan)
    requires
        an.fits(*ar, *g),
        target < g.m_count(),
    ensures
        ({
            let t = Mcts { ar, g, an, req: request(target, rate_per_min, *opts), opts };
            let end = t.simulated(opts.iterations as nat);
            t.plans(end, plan) && t.no_worse(end)
        }),
{
    let req = PlanRequest { target, rate_per_min, max_ops: 200_000, max_tier: opts.max_tier };
    let t = Mcts { ar, g, an, req, opts };
    let none = Choices::new();
    assert(none.entries@ =~= Seq::<(MaterialId, RecipeId)>::empty());
    let first = t.expand(&none);
    let first_score = rate(ar, ar.ratio(1, 1000), &first);
    let mut nodes: Vec<Node> = Vec::new();
    nodes.push(t.node(first.choices.clone(), first, None));
    let mut best: usize = 0;
    let mut best_score = first_score;
    proof {
        assert(knots(nodes@) =~= t.start().nodes);
        crate::planner::score::descends_not(*ar, first_score);
    }
    let mut k: usize = 0;
    while k < opts.iterations
        invariant
            k <= opts.iterations,
            t.ok(),
            t.ar == ar,
            nodes_suit(nodes@, t.expansion()),
            best < nodes@.len(),
            t.scored(knots(nodes@)),
            knots(nodes@)[best as int].score == best_score,
            (Forest { nodes: knots(nodes@), best: best as int, best_score }) == t.simulated(
                k as nat,
            ),
            crate::planner::score::descends(*ar, first_score, best_score),
        decreases opts.iterations - k,
    {
        let ghost before = best_score;
        t.run_simulate(&mut nodes, &mut best, &mut best_score);
        proof {
            if best_score != before {
                crate::planner::score::descends_further(*ar, first_score, before, best_score);
            }
        }
        k += 1;
    }
    let text = t.write_note(nodes.len() - 1, best_score, first_score);
    let ghost end = t.simulated(opts.iterations as nat);
    assert(text@ == t.note(end));
    assert(knots(nodes@)[best as int] == nodes@[best as int]@);
    let Node { result, .. } = nodes.swap_remove(best);
    let mut notes = result.notes;
    let ghost given = crate::intern::texts(notes@);
    notes.push(text);
    assert(crate::intern::texts(notes@) =~= given.push(text@));
    let zero = ar.ratio(0, 1);
    let assembly = Assembly { ar, g, an, alts: None };
    assembly.assemble(
        target,
        rate_per_min,
        "mcts",
        &result.ops,
        &result.raw,
        &result.byproducts,
        PlanMetrics::none(zero),
        notes,
        zero,
    )
}

/// Each change once, where it came first.
pub open spec fn once(actions: Seq<(MaterialId, RecipeId)>) -> Seq<(MaterialId, RecipeId)>
    decreases actions.len(),
{
    if actions.len() == 0 {
        Seq::empty()
    } else if actions.drop_last().contains(actions.last()) {
        once(actions.drop_last())
    } else {
        once(actions.drop_last()).push(actions.last())
    }
}

spec fn action_code(a: (MaterialId, RecipeId)) -> u64 {
    (a.0 * 0x1_0000_0000 + a.1) as u64
}

/// Keeps each change once, where it came first.
pub fn dedup_actions(actions: Vec<(MaterialId, RecipeId)>) -> (r: Vec<(MaterialId, RecipeId)>)
    ensures
        r@ == once(actions@),
{
    broadcast use vstd::std_specs::hash::group_hash_axioms;

    let mut seen: HashSet<u64> = HashSet::new();
    let mut r: Vec<(MaterialId, RecipeId)> = Vec::new();
    let mut i: usize = 0;
    assert(actions@.take(0) =~= Seq::empty());
    while i < actions.len()
        invariant
            i <= actions@.len(),
            r@ == once(actions@.take(i as int)),
            forall|k: int| 0 <= k < i ==> seen@.contains(#[trigger] action_code(actions@[k])),
            forall|x: u64| #[trigger]
                seen@.contains(x) ==> exists|k: int|
                    0 <= k < i && x == #[trigger] action_code(actions@[k]),
        decreases actions@.len() - i,
    {
        let (m, x): (u32, u32) = actions[i];
        let code: u64 = m as u64 * 0x1_0000_0000 + x as u64;
        let ghost before = actions@.take(i as int);
        assert(actions@.take(i + 1).drop_last() =~= before);
        assert(actions@.take(i + 1).last() == (m, x));
        assert(code == action_code((m, x)));
        let ghost had = seen@;
        if seen.insert(code) {
            assert(!before.contains((m, x))) by {
                if before.contains((m, x)) {
                    let k = choose|k: int| 0 <= k < before.len() && before[k] == (m, x);
                    assert(actions@[k] == (m, x));
                    assert(had.contains(action_code(actions@[k])));
                }
            }
            r.push((m, x));
        } else {
            let ghost k = choose|k: int| 0 <= k < i && code == #[trigger] action_code(actions@[k]);
            assert(before[k] == (m, x));
        }
        assert forall|y: u64| #[trigger] seen@.contains(y) implies exists|k: int|
            0 <= k < i + 1 && y == #[trigger] action_code(actions@[k]) by {
            if y == code {
                assert(y == action_code(actions@[i as int]));
            } else {
                let k = choose|k: int| 0 <= k < i && y == #[trigger] action_code(actions@[k]);
                assert(y == action_code(actions@[k]));
            }
        }
        i += 1;
    }
    assert(actions@.take(actions@.len() as int) =~= actions@);
    r
}

} // verus!

//! What the tree search grows, and what it finds there.
use vstd::prelude::*;

use crate::choices::with_choice;
use crate::model::{MaterialId, RecipeId};
use crate::planner::mcts::{Forest, Knot, Mcts};
use crate::planner::neighbours::{made_at, no_dearer, ranks, stands_in};
use crate::planner::score::better;
use crate::scalar::{Arithmetic, Scalar};
use crate::scale::Scale;

verus! {

impl<'a, A: Arithmetic> Mcts<'a, A> {
    /// The changes of an assignment that the search knows.
    pub open spec fn changes(self, choices: Seq<(MaterialId, RecipeId)>) -> Seq<
        (MaterialId, RecipeId),
    > {
        self.actions_to(choices, choices.len() as int)
    }

    proof fn change_at(self, choices: Seq<(MaterialId, RecipeId)>, p: int, a: int, n: int) -> (k: int)
        requires
            0 <= p < n <= choices.len(),
            0 <= a < self.tried(choices[p]).len(),
        ensures
            0 <= k < self.actions_to(choices, n).len(),
            self.actions_to(choices, n)[k] == (choices[p].0, self.tried(choices[p])[a]),
        decreases n,
    {
        if p < n - 1 {
            self.change_at(choices, p, a, n - 1)
        } else {
            self.actions_to(choices, n - 1).len() + a
        }
    }

    /// The changes of an assignment are complete: for every entry, every recipe that
    /// stands in for the one that is chosen is among them, unless as many others as
    /// the limit allows are, none of which is dearer.
    pub proof fn changes_are_complete(
        self,
        choices: Seq<(MaterialId, RecipeId)>,
        p: int,
        x: RecipeId,
        q: u64,
    )
        requires
            self.ok(),
            0 <= p < choices.len(),
            choices[p].0 < self.g.m_count(),
            stands_in(
                *self.ar,
                *self.g,
                *self.an,
                choices[p].0,
                Some(choices[p].1),
                self.opts.max_tier,
                x,
                q,
            ),
        ensures
            self.changes(choices).contains((choices[p].0, x)) || exists|others: Seq<RecipeId>|
                #![trigger others.len()]
                others.len() == self.opts.candidate_limit && others.no_duplicates() && forall|i: int|
                    #![trigger others[i]]
                    0 <= i < others.len() ==> self.changes(choices).contains(
                        (choices[p].0, others[i]),
                    ) && no_dearer(
                        *self.ar,
                        *self.g,
                        *self.an,
                        choices[p].0,
                        others[i],
                        made_at(*self.ar, *self.g, *self.an, choices[p].0, x, q),
                    ),
    {
        let m = choices[p].0;
        let limit = self.opts.candidate_limit;
        let tier = self.opts.max_tier;
        let current = Some(choices[p].1);
        let others = self.tried(choices[p]);
        crate::planner::neighbours::stand_ins_are_found(
            *self.ar,
            *self.g,
            *self.an,
            m,
            current,
            limit,
            tier,
            x,
            q,
        );
        crate::planner::neighbours::others_stand_in(
            *self.ar,
            *self.g,
            *self.an,
            m,
            current,
            limit,
            tier,
        );
        assert forall|i: int|
            #![trigger others[i]]
            0 <= i < others.len() implies self.changes(choices).contains((m, others[i])) by {
            let k = self.change_at(choices, p, i, choices.len() as int);
            assert(self.changes(choices)[k] == (m, others[i]));
        }
        if others.contains(x) {
            let a = choose|a: int| 0 <= a < others.len() && others[a] == x;
            assert(self.changes(choices).contains((m, others[a])));
        } else {
            assert(others.len() == limit);
        }
    }

    /// A node has a child that was made by the change.
    pub open spec fn has_child(self, nodes: Seq<Knot>, i: int, change: (MaterialId, RecipeId)) -> bool {
        exists|c: int|
            0 <= c < nodes.len() && nodes[i].children.contains(c as usize) && (
            #[trigger] nodes[c]).choices == with_choice(nodes[i].choices, change.0, change.1)
                && nodes[c].result == self.expansion().expanded(nodes[c].choices)
    }

    /// Nothing is lost of a node: one that was opened has still to try each change of
    /// its assignment, or has a child that was made by it.
    pub open spec fn nothing_lost(self, nodes: Seq<Knot>, i: int) -> bool {
        let n = nodes[i];
        &&& !n.opened ==> n.untried.len() == 0 && n.children.len() == 0
        &&& n.opened ==> forall|a: int|
            0 <= a < self.changes(n.choices).len() ==> n.untried.contains(
                #[trigger] self.changes(n.choices)[a],
            ) || self.has_child(nodes, i, self.changes(n.choices)[a])
    }

    /// No node is better than the best.
    pub open spec fn none_better(self, f: Forest) -> bool {
        forall|i: int|
            0 <= i < f.nodes.len() ==> (#[trigger] f.nodes[i]).score == self.score(f.nodes[i].result)
                && !better(*self.ar, f.nodes[i].score, f.best_score)
    }

    proof fn credit_only_credits(self, nodes: Seq<Knot>, i: int, reward: Scalar)
        requires
            0 <= i < nodes.len(),
        ensures
            self.credit(nodes, i, reward).len() == nodes.len(),
            forall|j: int|
                0 <= j < nodes.len() ==> same_knot(
                    nodes[j],
                    #[trigger] self.credit(nodes, i, reward)[j],
                ),
        decreases i,
    {
        let next = nodes.update(
            i,
            Knot {
                visits: crate::planner::beam::one_more(nodes[i].visits),
                total_reward: self.ar.plus_spec(nodes[i].total_reward, reward),
                ..nodes[i]
            },
        );
        if let Some(p) = nodes[i].parent {
            if 0 <= p < i {
                self.credit_only_credits(next, p as int, reward);
                assert forall|j: int| 0 <= j < nodes.len() implies same_knot(
                    nodes[j],
                    #[trigger] self.credit(nodes, i, reward)[j],
                ) by {
                    assert(same_knot(next[j], self.credit(next, p as int, reward)[j]));
                }
            }
        }
    }

    proof fn select_is_node(self, nodes: Seq<Knot>, i: int)
        requires
            0 <= i < nodes.len(),
        ensures
            0 <= self.select(nodes, i) < nodes.len(),
        decreases nodes.len() - i,
    {
        if !(nodes[i].untried.len() > 0 || nodes[i].children.len() == 0) {
            let next = self.best_child_to(nodes, i, nodes[i].children.len() as int).1 as int;
            if i < next < nodes.len() {
                self.select_is_node(nodes, next);
            }
        }
    }

    /// Nothing is lost, and no node is better than the best.
    pub open spec fn sound(self, f: Forest) -> bool {
        &&& f.nodes.len() > 0
        &&& f.nodes[0].choices == self.start().nodes[0].choices
        &&& forall|i: int|
            0 <= i < f.nodes.len() ==> #[trigger] self.nothing_lost(f.nodes, i)
        &&& self.none_better(f)
    }

    proof fn open_keeps(self, nodes: Seq<Knot>, at: int)
        requires
            0 <= at < nodes.len(),
            forall|i: int| 0 <= i < nodes.len() ==> #[trigger] self.nothing_lost(nodes, i),
        ensures
            self.open(nodes, at).len() == nodes.len(),
            self.open(nodes, at)[at].opened,
            forall|i: int|
                0 <= i < nodes.len() ==> #[trigger] self.nothing_lost(self.open(nodes, at), i),
    {
        let next = self.open(nodes, at);
        assert(self.nothing_lost(nodes, at));
        assert forall|i: int| 0 <= i < nodes.len() implies #[trigger] self.nothing_lost(next, i) by {
            assert(self.nothing_lost(nodes, i));
            let n = next[i];
            if i == at && !nodes[at].opened {
                assert(n.untried == self.changes(n.choices));
                assert forall|a: int| 0 <= a < self.changes(n.choices).len() implies n.untried.contains(
                    #[trigger] self.changes(n.choices)[a],
                ) by {}
            } else {
                assert forall|a: int|
                    0 <= a < self.changes(n.choices).len() && n.opened implies n.untried.contains(
                    #[trigger] self.changes(n.choices)[a],
                ) || self.has_child(next, i, self.changes(n.choices)[a]) by {
                    let change = self.changes(n.choices)[a];
                    if !n.untried.contains(change) {
                        assert(self.has_child(nodes, i, change));
                        let c = choose|c: int|
                            0 <= c < nodes.len() && nodes[i].children.contains(c as usize) && (
                            #[trigger] nodes[c]).choices == with_choice(
                                nodes[i].choices,
                                change.0,
                                change.1,
                            ) && nodes[c].result == self.expansion().expanded(nodes[c].choices);
                        assert(next[c].choices == nodes[c].choices);
                    }
                }
            }
        }
    }

    proof fn grow_keeps(self, nodes: Seq<Knot>, at: int)
        requires
            0 <= at < nodes.len() < usize::MAX,
            nodes[at].opened,
            forall|i: int| 0 <= i < nodes.len() ==> #[trigger] self.nothing_lost(nodes, i),
        ensures
            forall|i: int|
                0 <= i < self.grow(nodes, at).len() ==> #[trigger] self.nothing_lost(
                    self.grow(nodes, at),
                    i,
                ),
    {
        let next = self.grow(nodes, at);
        if nodes[at].untried.len() > 0 {
            let first = nodes[at].untried[0];
            let new = nodes.len() as int;
            assert forall|i: int| 0 <= i < next.len() implies #[trigger] self.nothing_lost(next, i) by {
                if i < new {
                    assert(self.nothing_lost(nodes, i));
                    let n = next[i];
                    assert(n.choices == nodes[i].choices && n.opened == nodes[i].opened);
                    assert forall|a: int|
                        0 <= a < self.changes(n.choices).len()
                            && n.opened implies n.untried.contains(
                        #[trigger] self.changes(n.choices)[a],
                    ) || self.has_child(next, i, self.changes(n.choices)[a]) by {
                        let change = self.changes(n.choices)[a];
                        if nodes[i].untried.contains(change) {
                            let k = choose|k: int|
                                0 <= k < nodes[i].untried.len() && nodes[i].untried[k] == change;
                            if i == at {
                                if k == 0 {
                                    assert(n.children[n.children.len() - 1] == new as usize);
                                    assert(next[new].choices == with_choice(
                                        n.choices,
                                        change.0,
                                        change.1,
                                    ));
                                } else {
                                    assert(n.untried[k - 1] == change);
                                }
                            }
                        } else {
                            assert(self.has_child(nodes, i, change));
                            let c = choose|c: int|
                                0 <= c < nodes.len() && nodes[i].children.contains(c as usize) && (
                                #[trigger] nodes[c]).choices == with_choice(
                                    nodes[i].choices,
                                    change.0,
                                    change.1,
                                ) && nodes[c].result == self.expansion().expanded(nodes[c].choices);
                            assert(next[c].choices == nodes[c].choices);
                            let k = choose|k: int|
                                0 <= k < nodes[i].children.len() && nodes[i].children[k]
                                    == c as usize;
                            assert(n.children[k] == c as usize);
                        }
                    }
                }
            }
        }
    }

    proof fn same_keeps(self, nodes: Seq<Knot>, next: Seq<Knot>)
        requires
            next.len() == nodes.len(),
            forall|j: int| 0 <= j < nodes.len() ==> same_knot(nodes[j], #[trigger] next[j]),
            forall|i: int| 0 <= i < nodes.len() ==> #[trigger] self.nothing_lost(nodes, i),
        ensures
            forall|i: int| 0 <= i < nodes.len() ==> #[trigger] self.nothing_lost(next, i),
    {
        assert forall|i: int| 0 <= i < nodes.len() implies #[trigger] self.nothing_lost(next, i) by {
            assert(self.nothing_lost(nodes, i));
            assert(same_knot(nodes[i], next[i]));
            let n = next[i];
            assert forall|a: int|
                0 <= a < self.changes(n.choices).len() && n.opened implies n.untried.contains(
                #[trigger] self.changes(n.choices)[a],
            ) || self.has_child(next, i, self.changes(n.choices)[a]) by {
                let change = self.changes(n.choices)[a];
                if !n.untried.contains(change) {
                    assert(self.has_child(nodes, i, change));
                    let c = choose|c: int|
                        0 <= c < nodes.len() && nodes[i].children.contains(c as usize) && (
                        #[trigger] nodes[c]).choices == with_choice(
                            nodes[i].choices,
                            change.0,
                            change.1,
                        ) && nodes[c].result == self.expansion().expanded(nodes[c].choices);
                    assert(same_knot(nodes[c], next[c]));
                }
            }
        }
    }

    /// A simulation loses nothing, and keeps it so that no node is better than the
    /// best.
    pub proof fn simulation_is_sound(self, f: Forest)
        requires
            ranks(*self.ar),
            f.nodes.len() < usize::MAX,
            self.sound(f),
        ensures
            self.sound(self.simulate(f)),
            f.nodes.len() <= self.simulate(f).nodes.len() <= f.nodes.len() + 1,
    {
        let at = self.select(f.nodes, 0);
        self.select_is_node(f.nodes, 0);
        let opened = self.open(f.nodes, at);
        self.open_keeps(f.nodes, at);
        let grown = self.grow(opened, at);
        self.grow_keeps(opened, at);
        let new = self.judged(opened, at);
        let sc = grown[new].score;
        let reward = self.ar.minus_spec(self.ar.ratio_spec(0, 1), sc);
        self.credit_only_credits(grown, new, reward);
        let t = self.simulate(f);
        self.same_keeps(grown, t.nodes);
        assert(same_knot(grown[0], t.nodes[0]));
        assert forall|i: int| 0 <= i < t.nodes.len() implies (#[trigger] t.nodes[i]).score
            == self.score(t.nodes[i].result) && !better(
            *self.ar,
            t.nodes[i].score,
            t.best_score,
        ) by {
            assert(same_knot(grown[i], t.nodes[i]));
            if i < f.nodes.len() {
                assert(f.nodes[i].score == grown[i].score && f.nodes[i].result == grown[i].result);
                assert(!better(*self.ar, f.nodes[i].score, f.best_score));
            }
        }
    }

    /// The root has still to try as many changes as it has, less one for each
    /// simulation.
    spec fn left_at_root(self, k: nat) -> nat {
        let n = self.changes(self.start().nodes[0].choices).len();
        if k < n {
            (n - k) as nat
        } else {
            0
        }
    }

    proof fn simulations_are_sound(self, k: nat)
        requires
            ranks(*self.ar),
            k < usize::MAX,
        ensures
            self.sound(self.simulated(k)),
            self.simulated(k).nodes.len() <= k + 1,
            k > 0 ==> self.simulated(k).nodes[0].opened && self.simulated(k).nodes[0].untried.len()
                == self.left_at_root(k),
        decreases k,
    {
        if k == 0 {
        } else {
            self.simulations_are_sound((k - 1) as nat);
            let f = self.simulated((k - 1) as nat);
            self.simulation_is_sound(f);
            let at = self.select(f.nodes, 0);
            self.select_is_node(f.nodes, 0);
            let opened = self.open(f.nodes, at);
            let grown = self.grow(opened, at);
            let new = self.judged(opened, at);
            self.credit_only_credits(
                grown,
                new,
                self.ar.minus_spec(self.ar.ratio_spec(0, 1), grown[new].score),
            );
            let t = self.simulated(k);
            assert(same_knot(grown[0], t.nodes[0]));
            assert(self.nothing_lost(f.nodes, 0));
            assert(grown[0].opened && grown[0].untried.len() == self.left_at_root(k));
        }
    }

    /// After any number of simulations nothing is lost, and no node is better than
    /// the best.
    pub proof fn search_is_sound(self, k: nat)
        requires
            ranks(*self.ar),
            k < usize::MAX,
        ensures
            self.sound(self.simulated(k)),
    {
        self.simulations_are_sound(k);
    }

    /// With at least as many simulations as the plan that the search starts from has
    /// changes, no plan that is one change away from it is better than the best.
    pub proof fn no_change_is_better(self, k: nat, p: int, a: int)
        requires
            ranks(*self.ar),
            self.changes(self.start().nodes[0].choices).len() <= k < usize::MAX,
            0 <= p < self.start().nodes[0].choices.len(),
            0 <= a < self.tried(self.start().nodes[0].choices[p]).len(),
        ensures
            ({
                let from = self.start().nodes[0].choices;
                !better(
                    *self.ar,
                    self.score(
                        self.expansion().expanded(
                            with_choice(from, from[p].0, self.tried(from[p])[a]),
                        ),
                    ),
                    self.simulated(k).best_score,
                )
            }),
    {
        let from = self.start().nodes[0].choices;
        let f = self.simulated(k);
        self.simulations_are_sound(k);
        let at = self.change_at(from, p, a, from.len() as int);
        let change = self.changes(from)[at];
        assert(self.nothing_lost(f.nodes, 0));
        assert(f.nodes[0].untried.len() == 0);
        assert(self.has_child(f.nodes, 0, change));
        let c = choose|c: int|
            0 <= c < f.nodes.len() && f.nodes[0].children.contains(c as usize) && (
            #[trigger] f.nodes[c]).choices == with_choice(
                f.nodes[0].choices,
                change.0,
                change.1,
            ) && f.nodes[c].result == self.expansion().expanded(f.nodes[c].choices);
        assert(f.nodes[c].score == self.score(f.nodes[c].result));
    }

    /// Node `j` is `i` or one that it was grown from.
    pub open spec fn on_path(nodes: Seq<Knot>, j: int, i: int) -> bool
        decreases i,
    {
        j == i || (nodes[i].parent matches Some(p) && 0 <= p < i && Self::on_path(
            nodes,
            j,
            p as int,
        ))
    }

    /// A simulation counts for the node that was judged and for every node that it
    /// was grown from, once, and for no other.
    pub proof fn credit_goes_up(self, nodes: Seq<Knot>, i: int, reward: Scalar, j: int)
        requires
            0 <= i < nodes.len(),
            0 <= j < nodes.len(),
        ensures
            ({
                let next = self.credit(nodes, i, reward)[j];
                if Self::on_path(nodes, j, i) {
                    &&& next.visits == nodes[j].visits + 1 || nodes[j].visits == usize::MAX
                    &&& next.total_reward == self.ar.plus_spec(nodes[j].total_reward, reward)
                } else {
                    next.visits == nodes[j].visits && next.total_reward == nodes[j].total_reward
                }
            }),
        decreases i,
    {
        let next = nodes.update(
            i,
            Knot {
                visits: crate::planner::beam::one_more(nodes[i].visits),
                total_reward: self.ar.plus_spec(nodes[i].total_reward, reward),
                ..nodes[i]
            },
        );
        if let Some(p) = nodes[i].parent {
            if 0 <= p < i {
                self.credit_goes_up(next, p as int, reward, j);
                same_paths::<A>(nodes, next, j, p as int);
                path_is_below::<A>(nodes, j, p as int);
            }
        }
    }

    /// The child that is gone to is one whose bound no other child exceeds.
    pub proof fn greatest_bound_is_taken(self, nodes: Seq<Knot>, i: int, n: int, c: int)
        requires
            ranks(*self.ar),
            0 <= c < n <= nodes[i].children.len(),
        ensures
            ({
                let best = self.best_child_to(nodes, i, n);
                !self.ar.lt_spec(
                    best.0,
                    self.bound(nodes[i], nodes[nodes[i].children[c] as int]),
                )
            }),
        decreases n,
    {
        self.ar.total_before_orders();
        if c < n - 1 {
            self.greatest_bound_is_taken(nodes, i, n - 1, c);
        }
    }

    /// The bound that is kept is that of the child that is kept, where any exceeds
    /// what the search starts from.
    pub proof fn bound_is_of_the_child(self, nodes: Seq<Knot>, i: int, n: int)
        requires
            0 < n <= nodes[i].children.len(),
            self.ar.lt_spec(
                self.ar.minus_spec(self.ar.ratio_spec(0, 1), self.ar.infinity_spec()),
                self.bound(nodes[i], nodes[nodes[i].children[0] as int]),
            ),
        ensures
            ({
                let best = self.best_child_to(nodes, i, n);
                nodes[i].children.contains(best.1) && best.0 == self.bound(
                    nodes[i],
                    nodes[best.1 as int],
                )
            }),
        decreases n,
    {
        if n > 1 {
            self.bound_is_of_the_child(nodes, i, n - 1);
        } else {
            reveal_with_fuel(Mcts::best_child_to, 2);
            assert(nodes[i].children.contains(nodes[i].children[0]));
        }
        assert(nodes[i].children.contains(nodes[i].children[n - 1]));
    }
}

/// Greater amounts have no smaller roots.
pub open spec fn roots_grow<A: Arithmetic>(w: Scale, ar: A) -> bool {
    forall|a: Scalar, b: Scalar|
        #![trigger ar.sqrt_spec(a), ar.sqrt_spec(b)]
        w.amount(a) && w.amount(b) && (w.of)(a) <= (w.of)(b) && (w.fits)(ar.sqrt_spec(a)) && (
        w.fits)(ar.sqrt_spec(b)) ==> 0 <= (w.of)(ar.sqrt_spec(a)) <= (w.of)(ar.sqrt_spec(b))
}

impl<'a, A: Arithmetic> Mcts<'a, A> {
    /// What a node's bound allows for, beyond its mean.
    pub open spec fn allowance(self, parent: Knot, visits: usize) -> Scalar {
        let n = if parent.visits < 1 { 1usize } else { parent.visits };
        self.ar.times_spec(
            self.opts.exploration,
            self.ar.sqrt_spec(
                self.ar.over_spec(
                    self.ar.ln_spec(self.ar.ratio_spec(n as u64, 1)),
                    self.ar.ratio_spec(visits as u64, 1),
                ),
            ),
        )
    }

    /// The numbers of a bound are within range.
    pub open spec fn bound_fits(self, w: Scale, parent: Knot, child: Knot) -> bool {
        let n = if parent.visits < 1 { 1usize } else { parent.visits };
        let l = self.ar.ln_spec(self.ar.ratio_spec(n as u64, 1));
        let q = self.ar.over_spec(l, self.ar.ratio_spec(child.visits as u64, 1));
        &&& child.visits > 0
        &&& w.amount(l)
        &&& (w.fits)(self.ar.ratio_spec(child.visits as u64, 1))
        &&& (w.fits)(q) && w.amount(self.ar.sqrt_spec(q))
        &&& w.amount(self.opts.exploration)
        &&& (w.fits)(self.allowance(parent, child.visits))
        &&& (w.fits)(self.mean(child))
        &&& (w.fits)(self.bound(parent, child))
    }

    /// Of two children with one mean, the one that was visited less is bounded no
    /// lower; and of two that were visited as often, the one with the greater mean is
    /// bounded higher.
    pub proof fn bounds_favour(self, w: Scale, parent: Knot, a: Knot, b: Knot)
        requires
            w.measures(*self.ar),
            roots_grow(w, *self.ar),
            self.bound_fits(w, parent, a),
            self.bound_fits(w, parent, b),
        ensures
            (w.of)(self.mean(a)) == (w.of)(self.mean(b)) && a.visits <= b.visits ==> (w.of)(
                self.bound(parent, a),
            ) >= (w.of)(self.bound(parent, b)),
            a.visits == b.visits ==> (w.of)(self.bound(parent, a)) - (w.of)(self.bound(parent, b))
                == (w.of)(self.mean(a)) - (w.of)(self.mean(b)),
    {
        let n = if parent.visits < 1 { 1usize } else { parent.visits };
        let l = self.ar.ln_spec(self.ar.ratio_spec(n as u64, 1));
        let va = self.ar.ratio_spec(a.visits as u64, 1);
        let vb = self.ar.ratio_spec(b.visits as u64, 1);
        let qa = self.ar.over_spec(l, va);
        let qb = self.ar.over_spec(l, vb);
        w.whole(*self.ar, a.visits as u64);
        w.whole(*self.ar, b.visits as u64);
        let u = w.unit;
        let (x, y) = (a.visits as int, b.visits as int);
        assert(x * u > 0 && y * u > 0) by (nonlinear_arith)
            requires
                x > 0,
                y > 0,
                u > 0,
        ;
        assert((w.of)(self.bound(parent, a)) == (w.of)(self.mean(a)) + (w.of)(
            self.allowance(parent, a.visits),
        ));
        assert((w.of)(self.bound(parent, b)) == (w.of)(self.mean(b)) + (w.of)(
            self.allowance(parent, b.visits),
        ));
        if x <= y {
            let (p, q) = ((w.of)(qa), (w.of)(qb));
            let t = (w.of)(l) * u;
            assert(q <= p) by (nonlinear_arith)
                requires
                    p * (x * u) <= t < p * (x * u) + x * u,
                    q * (y * u) <= t < q * (y * u) + y * u,
                    0 < x <= y,
                    u > 0,
                    q >= 0,
            ;
            let sa = (w.of)(self.ar.sqrt_spec(qa));
            let sb = (w.of)(self.ar.sqrt_spec(qb));
            assert(sb <= sa);
            let c = (w.of)(self.opts.exploration);
            let (k, m) = (
                (w.of)(self.allowance(parent, a.visits)),
                (w.of)(self.allowance(parent, b.visits)),
            );
            assert(m <= k) by (nonlinear_arith)
                requires
                    k * u <= c * sa < k * u + u,
                    m * u <= c * sb < m * u + u,
                    sb <= sa,
                    c >= 0,
                    u > 0,
            ;
        }
    }
}

proof fn same_paths<A: Arithmetic>(nodes: Seq<Knot>, next: Seq<Knot>, j: int, i: int)
    requires
        0 <= i < nodes.len() == next.len(),
        forall|k: int| 0 <= k < nodes.len() ==> (#[trigger] next[k]).parent == nodes[k].parent,
    ensures
        Mcts::<A>::on_path(nodes, j, i) == Mcts::<A>::on_path(next, j, i),
    decreases i,
{
    if let Some(p) = nodes[i].parent {
        if 0 <= p < i {
            same_paths::<A>(nodes, next, j, p as int);
        }
    }
    assert(next[i].parent == nodes[i].parent);
}

proof fn path_is_below<A: Arithmetic>(nodes: Seq<Knot>, j: int, i: int)
    requires
        0 <= i,
    ensures
        Mcts::<A>::on_path(nodes, j, i) ==> j <= i,
    decreases i,
{
    if let Some(p) = nodes[i].parent {
        if 0 <= p < i {
            path_is_below::<A>(nodes, j, p as int);
        }
    }
}

/// Two nodes differ in their counts at most.
pub open spec fn same_knot(a: Knot, b: Knot) -> bool {
    &&& a.choices == b.choices
    &&& a.result == b.result
    &&& a.score == b.score
    &&& a.parent == b.parent
    &&& a.children == b.children
    &&& a.untried == b.untried
    &&& a.opened == b.opened
}

} // verus!

//! What the totals of plans say of the searches that made them.
use vstd::prelude::*;

use crate::model::{MaterialId, RecipeId};
use crate::plan::{Plan, PlanTotals, StepText};
use crate::planner::assemble::Assembly;
use crate::planner::beam::{Beam, Search};
use crate::planner::mcts::{Forest, Mcts};
use crate::planner::tree::{cost_to, eps, gt_note, sum_to, Expanded, Expansion};
use crate::scalar::{Arithmetic, Scalar};

verus! {

/// Numbers are compared as one expects: what is less is not as great, what is as
/// great as something is as great as what that is as great as, what is better is
/// no greater, and what is more than nothing is no less than zero.
pub open spec fn compares<A: Arithmetic>(ar: A) -> bool {
    &&& ar.le_spec(ar.ratio_spec(0, 1), ar.ratio_spec(0, 1))
    &&& forall|a: Scalar, b: Scalar| #[trigger] ar.lt_spec(a, b) ==> !ar.le_spec(b, a)
    &&& forall|a: Scalar, b: Scalar, c: Scalar|
        #[trigger] ar.le_spec(a, b) && #[trigger] ar.le_spec(b, c) ==> ar.le_spec(a, c)
    &&& forall|a: Scalar, b: Scalar|
        #[trigger] crate::planner::score::better(ar, a, b) ==> ar.le_spec(a, b)
    &&& forall|a: Scalar| #[trigger]
        ar.lt_spec(eps(ar), a) ==> ar.le_spec(ar.ratio_spec(0, 1), a)
}

/// Numbers that are not below zero can be added in any order.
pub open spec fn adds_freely<A: Arithmetic>(ar: A) -> bool {
    let zero = ar.ratio_spec(0, 1);
    &&& forall|a: Scalar, b: Scalar|
        ar.le_spec(zero, a) && ar.le_spec(zero, b) ==> ar.le_spec(zero, #[trigger] ar.plus_spec(a, b))
    &&& forall|a: Scalar, b: Scalar, c: Scalar|
        ar.le_spec(zero, a) && ar.le_spec(zero, b) && ar.le_spec(zero, c) ==> #[trigger] ar.plus_spec(
            ar.plus_spec(a, b),
            c,
        ) == ar.plus_spec(ar.plus_spec(a, c), b)
}

/// Fixed-point numbers are compared as one expects, and can be added in any order.
pub proof fn fixed_adds_freely()
    ensures
        compares(crate::fixed::Fixed),
        adds_freely(crate::fixed::Fixed),
{
}

/// What rounding may move a score by: a quarter of a millionth.
pub open spec fn hair<A: Arithmetic>(ar: A) -> Scalar {
    ar.ratio_spec(1, 4_000_000)
}

/// What a plan may be worse by: a millionth.
pub open spec fn slack<A: Arithmetic>(ar: A) -> Scalar {
    ar.ratio_spec(1, 1_000_000)
}

/// Of two numbers that can be compared one is no greater, a hair more keeps their
/// order, and two hairs are within the slack. Numbers that are rounded to the
/// nearest behave like this.
pub open spec fn leaves_slack<A: Arithmetic>(ar: A) -> bool {
    &&& forall|a: Scalar, b: Scalar| #[trigger]
        ar.le_spec(a, b) ==> ar.le_spec(a, a) && ar.le_spec(b, b)
    &&& forall|a: Scalar, b: Scalar|
        ar.le_spec(a, a) && ar.le_spec(b, b) ==> #[trigger] ar.le_spec(a, b) || ar.lt_spec(b, a)
    &&& forall|a: Scalar, b: Scalar|
        #![trigger ar.plus_spec(a, hair(ar)), ar.plus_spec(b, hair(ar))]
        ar.le_spec(a, b) ==> ar.le_spec(ar.plus_spec(a, hair(ar)), ar.plus_spec(b, hair(ar)))
    &&& forall|a: Scalar|
        ar.le_spec(a, a) ==> ar.le_spec(
            #[trigger] ar.plus_spec(ar.plus_spec(a, hair(ar)), hair(ar)),
            ar.plus_spec(a, slack(ar)),
        )
}

/// Two scores differ by no more than a hair.
pub open spec fn near<A: Arithmetic>(ar: A, a: Scalar, b: Scalar) -> bool {
    ar.le_spec(a, ar.plus_spec(b, hair(ar))) && ar.le_spec(b, ar.plus_spec(a, hair(ar)))
}

/// Where `b` is no greater than `a`, and `p` and `q` are near to `b` and `a`, `p` is
/// no greater than `q` by more than the slack.
proof fn within_slack<A: Arithmetic>(ar: A, p: Scalar, b: Scalar, a: Scalar, q: Scalar)
    requires
        compares(ar),
        leaves_slack(ar),
        near(ar, b, p),
        near(ar, a, q),
        b == a || ar.le_spec(b, a),
    ensures
        ar.le_spec(p, ar.plus_spec(q, slack(ar))),
{
    let h = hair(ar);
    assert(ar.le_spec(p, ar.plus_spec(b, h)));
    assert(ar.le_spec(p, ar.plus_spec(a, h)));
    assert(ar.le_spec(q, q));
    assert(ar.le_spec(ar.plus_spec(a, h), ar.plus_spec(ar.plus_spec(q, h), h)));
    assert(ar.le_spec(ar.plus_spec(a, h), ar.plus_spec(q, slack(ar))));
}

/// Fixed-point numbers leave slack.
pub proof fn fixed_leaves_slack()
    ensures
        leaves_slack(crate::fixed::Fixed),
        forall|a: Scalar| #[trigger] near(crate::fixed::Fixed, a, a),
{
}

/// Numbers, added up.
pub open spec fn total<A: Arithmetic>(ar: A, v: Seq<Scalar>) -> Scalar
    decreases v.len(),
{
    if v.len() == 0 {
        ar.ratio_spec(0, 1)
    } else {
        ar.plus_spec(total(ar, v.drop_last()), v.last())
    }
}

/// No number is below zero.
pub open spec fn amounts<A: Arithmetic>(ar: A, v: Seq<Scalar>) -> bool {
    forall|i: int| 0 <= i < v.len() ==> ar.le_spec(ar.ratio_spec(0, 1), #[trigger] v[i])
}

proof fn total_is_amount<A: Arithmetic>(ar: A, v: Seq<Scalar>)
    requires
        compares(ar),
        adds_freely(ar),
        amounts(ar, v),
    ensures
        ar.le_spec(ar.ratio_spec(0, 1), total(ar, v)),
    decreases v.len(),
{
    if v.len() > 0 {
        let rest = v.drop_last();
        assert forall|i: int| 0 <= i < rest.len() implies ar.le_spec(
            ar.ratio_spec(0, 1),
            #[trigger] rest[i],
        ) by {
            assert(rest[i] == v[i]);
        }
        total_is_amount(ar, rest);
    }
}

/// A number can be added last.
proof fn added_last<A: Arithmetic>(ar: A, v: Seq<Scalar>, i: int)
    requires
        compares(ar),
        adds_freely(ar),
        amounts(ar, v),
        0 <= i < v.len(),
    ensures
        total(ar, v) == ar.plus_spec(total(ar, v.remove(i)), v[i]),
    decreases v.len(),
{
    let n = v.len() - 1;
    if i == n {
        assert(v.remove(i) =~= v.drop_last());
    } else {
        let rest = v.drop_last();
        assert forall|k: int| 0 <= k < rest.len() implies ar.le_spec(
            ar.ratio_spec(0, 1),
            #[trigger] rest[k],
        ) by {
            assert(rest[k] == v[k]);
        }
        added_last(ar, rest, i);
        let fewer = rest.remove(i);
        assert forall|k: int| 0 <= k < fewer.len() implies ar.le_spec(
            ar.ratio_spec(0, 1),
            #[trigger] fewer[k],
        ) by {
            assert(fewer[k] == if k < i { rest[k] } else { rest[k + 1] });
        }
        total_is_amount(ar, fewer);
        let without = v.remove(i);
        assert(without.drop_last() =~= fewer);
        assert(without.last() == v[n]);
        assert(ar.le_spec(ar.ratio_spec(0, 1), v[i]));
        assert(ar.le_spec(ar.ratio_spec(0, 1), v[n]));
    }
}

/// Numbers add up to the same in any order.
pub proof fn order_does_not_matter<A: Arithmetic>(ar: A, v: Seq<Scalar>, p: Seq<usize>)
    requires
        compares(ar),
        adds_freely(ar),
        amounts(ar, v),
        p.len() == v.len(),
        p.no_duplicates(),
        forall|a: int| 0 <= a < p.len() ==> #[trigger] p[a] < v.len(),
        forall|x: usize| x < v.len() ==> p.contains(x),
        v.len() <= usize::MAX,
    ensures
        total(ar, crate::order::listed(v, p)) == total(ar, v),
    decreases v.len(),
{
    let n = v.len() as int;
    let w = crate::order::listed(v, p);
    if n > 0 {
        let top = (n - 1) as usize;
        assert(p.contains(top));
        let i = choose|i: int| 0 <= i < p.len() && p[i] == top;
        let q = p.remove(i);
        let rest = v.drop_last();
        assert forall|a: int| 0 <= a < q.len() implies #[trigger] q[a] < rest.len() by {
            let b = if a < i { a } else { a + 1 };
            assert(q[a] == p[b]);
            assert(p[b] != p[i]);
        }
        assert forall|a: int, b: int| 0 <= a < q.len() && 0 <= b < q.len() && a != b implies q[a]
            != q[b] by {
            let a2 = if a < i { a } else { a + 1 };
            let b2 = if b < i { b } else { b + 1 };
            assert(q[a] == p[a2] && q[b] == p[b2]);
        }
        assert forall|x: usize| x < rest.len() implies q.contains(x) by {
            assert(p.contains(x));
            let b = choose|b: int| 0 <= b < p.len() && p[b] == x;
            let a = if b < i { b } else { b - 1 };
            assert(q[a] == x);
        }
        assert forall|k: int| 0 <= k < rest.len() implies ar.le_spec(
            ar.ratio_spec(0, 1),
            #[trigger] rest[k],
        ) by {
            assert(rest[k] == v[k]);
        }
        order_does_not_matter(ar, rest, q);
        assert(w.remove(i) =~= crate::order::listed(rest, q)) by {
            assert forall|a: int| 0 <= a < q.len() implies w.remove(i)[a] == rest[q[a] as int] by {
                let b = if a < i { a } else { a + 1 };
                assert(q[a] == p[b]);
            }
        }
        assert forall|k: int| 0 <= k < w.len() implies ar.le_spec(
            ar.ratio_spec(0, 1),
            #[trigger] w[k],
        ) by {
            assert(w[k] == v[p[k] as int]);
        }
        added_last(ar, w, i);
    }
}

/// How often the recipes of steps run.
pub open spec fn rates(steps: Seq<StepText>) -> Seq<Scalar> {
    steps.map_values(|s: StepText| s.ops_per_min)
}

/// What a plan is judged by: its cost, and a little for its operations.
pub open spec fn plan_score<A: Arithmetic>(ar: A, ops_penalty: Scalar, t: PlanTotals) -> Scalar {
    ar.plus_spec(t.estimated_cost, ar.times_spec(ops_penalty, t.recipe_ops_per_min))
}

impl<'a, A: Arithmetic> Assembly<'a, A> {
    proof fn costs_agree(self, raw: Seq<(MaterialId, Scalar)>, i: int)
        requires
            compares(*self.ar),
            0 <= i <= raw.len(),
            forall|k: int|
                0 <= k < raw.len() ==> self.ar.lt_spec(eps(*self.ar), (#[trigger] raw[k]).1),
        ensures
            self.raw_to(raw, i).0 == cost_to(*self.ar, *self.g, raw, i),
        decreases i,
    {
        if i > 0 {
            self.costs_agree(raw, i - 1);
            assert(self.ar.lt_spec(eps(*self.ar), raw[i - 1].1));
        }
    }

    proof fn all_are_steps(self, ops: Seq<(RecipeId, Scalar)>, i: int)
        requires
            compares(*self.ar),
            0 <= i <= ops.len(),
            forall|k: int|
                0 <= k < ops.len() ==> self.ar.lt_spec(eps(*self.ar), (#[trigger] ops[k]).1),
        ensures
            self.steps_to(ops, i).len() == i,
            forall|k: int|
                0 <= k < i ==> (#[trigger] self.steps_to(ops, i)[k]).ops_per_min == ops[k].1,
            total(*self.ar, rates(self.steps_to(ops, i))) == sum_to(*self.ar, ops, i),
        decreases i,
    {
        if i > 0 {
            self.all_are_steps(ops, i - 1);
            assert(self.ar.lt_spec(eps(*self.ar), ops[i - 1].1));
            let steps = self.steps_to(ops, i);
            assert(rates(steps).drop_last() =~= rates(self.steps_to(ops, i - 1)));
            assert(rates(steps).last() == ops[i - 1].1);
        } else {
            assert(rates(self.steps_to(ops, i)) =~= Seq::empty());
        }
    }

    proof fn ops_are_total(self, steps: Seq<StepText>, i: int)
        requires
            0 <= i <= steps.len(),
        ensures
            self.ops_to(steps, i) == total(*self.ar, rates(steps.take(i))),
        decreases i,
    {
        if i > 0 {
            self.ops_are_total(steps, i - 1);
            assert(rates(steps.take(i)).drop_last() =~= rates(steps.take(i - 1)));
            assert(rates(steps.take(i)).last() == steps[i - 1].ops_per_min);
        } else {
            assert(rates(steps.take(0)) =~= Seq::empty());
        }
    }

    /// The totals of the plan of an expansion are what the expansion is judged by:
    /// its cost; and its operations, added up in the order of the plan, which is
    /// the same where numbers can be added in any order.
    pub proof fn totals_are_those_judged(
        self,
        x: Expansion<'a, A>,
        e: Expanded,
        target: MaterialId,
        rate_per_min: Scalar,
        mode: Seq<char>,
        notes: Seq<Seq<char>>,
        plan: Plan,
    )
        requires
            compares(*self.ar),
            x.ar == self.ar,
            x.g == self.g,
            x.adds_up(e),
            self.assembles(
                target,
                rate_per_min,
                mode,
                e.ops,
                e.raw,
                e.byproducts,
                notes,
                plan,
            ),
        ensures
            plan.totals.estimated_cost == e.estimated_cost,
            plan.totals.recipe_ops_per_min == total(
                *self.ar,
                rates(crate::plan::step_texts(plan.recipes@)),
            ),
            adds_freely(*self.ar) ==> plan.totals.recipe_ops_per_min == e.ops_total,
    {
        self.costs_agree(e.raw, e.raw.len() as int);
        let n = e.ops.len() as int;
        self.all_are_steps(e.ops, n);
        let steps = self.steps_to(e.ops, n);
        let shown = crate::plan::step_texts(plan.recipes@);
        self.ops_are_total(shown, shown.len() as int);
        assert(shown.take(shown.len() as int) =~= shown);
        if adds_freely(*self.ar) {
            let before = crate::planner::assemble::step_order(*self.ar, steps);
            let p = choose|p: Seq<usize>|
                #[trigger] crate::order::stable_order(before, steps.len() as int, p) && shown
                    == crate::order::listed(steps, p);
            crate::planner::assemble::step_order_orders(*self.ar, steps);
            crate::order::stable_order_is_permutation(before, n, p);
            let v = rates(steps);
            assert forall|i: int| 0 <= i < v.len() implies self.ar.le_spec(
                self.ar.ratio_spec(0, 1),
                #[trigger] v[i],
            ) by {
                assert(v[i] == e.ops[i].1);
                assert(self.ar.lt_spec(eps(*self.ar), e.ops[i].1));
            }
            assert(plan.recipes.len() == plan.recipes@.len());
            assert(shown.len() == n);
            order_does_not_matter(*self.ar, v, p);
            assert(rates(shown) =~= crate::order::listed(v, p));
        }
    }

    /// Two plans of one expansion have the same recipes, raw materials and
    /// by-products.
    pub proof fn one_expansion_one_plan(
        self,
        e: Expanded,
        target: MaterialId,
        rate_per_min: Scalar,
        mode1: Seq<char>,
        mode2: Seq<char>,
        notes1: Seq<Seq<char>>,
        notes2: Seq<Seq<char>>,
        a: Plan,
        b: Plan,
    )
        requires
            self.assembles(target, rate_per_min, mode1, e.ops, e.raw, e.byproducts, notes1, a),
            self.assembles(target, rate_per_min, mode2, e.ops, e.raw, e.byproducts, notes2, b),
        ensures
            crate::plan::step_texts(a.recipes@) == crate::plan::step_texts(b.recipes@),
            crate::plan::entry_texts(a.raw_materials@) == crate::plan::entry_texts(b.raw_materials@),
            crate::plan::entry_texts(a.byproducts@) == crate::plan::entry_texts(b.byproducts@),
    {
        let steps = self.steps_to(e.ops, e.ops.len() as int);
        let raws = self.entries_to(e.raw, e.raw.len() as int);
        let bys = self.entries_to(e.byproducts, e.byproducts.len() as int);
        crate::planner::assemble::step_order_orders(*self.ar, steps);
        crate::planner::assemble::entry_order_orders(*self.ar, raws);
        crate::planner::assemble::entry_order_orders(*self.ar, bys);
        sorted_once(
            steps,
            crate::planner::assemble::step_order(*self.ar, steps),
            crate::plan::step_texts(a.recipes@),
            crate::plan::step_texts(b.recipes@),
        );
        sorted_once(
            raws,
            crate::planner::assemble::entry_order(*self.ar, raws),
            crate::plan::entry_texts(a.raw_materials@),
            crate::plan::entry_texts(b.raw_materials@),
        );
        sorted_once(
            bys,
            crate::planner::assemble::entry_order(*self.ar, bys),
            crate::plan::entry_texts(a.byproducts@),
            crate::plan::entry_texts(b.byproducts@),
        );
    }
}

proof fn sorted_once<T>(s: Seq<T>, before: spec_fn(int, int) -> bool, a: Seq<T>, b: Seq<T>)
    requires
        crate::order::orders(before, s.len() as int),
        crate::order::sorted_by(s, before, a),
        crate::order::sorted_by(s, before, b),
    ensures
        a == b,
{
    let p = choose|p: Seq<usize>|
        #[trigger] crate::order::stable_order(before, s.len() as int, p) && a
            == crate::order::listed(s, p);
    let q = choose|q: Seq<usize>|
        #[trigger] crate::order::stable_order(before, s.len() as int, q) && b
            == crate::order::listed(s, q);
    crate::order::stable_order_is_unique(before, s.len() as int, p, q);
}

/// A score that was reached by getting better step by step is no greater.
pub proof fn descent_is_no_greater<A: Arithmetic>(ar: A, a: Scalar, b: Scalar)
    requires
        compares(ar),
        crate::planner::score::descends(ar, a, b),
    ensures
        b == a || ar.le_spec(b, a),
{
    let scores = choose|scores: Seq<Scalar>| #[trigger]
        crate::planner::score::descent(ar, scores) && scores.len() > 0 && scores[0] == a
            && scores.last() == b;
    steps_down(ar, scores, scores.len() - 1);
}

proof fn steps_down<A: Arithmetic>(ar: A, scores: Seq<Scalar>, i: int)
    requires
        compares(ar),
        crate::planner::score::descent(ar, scores),
        0 <= i < scores.len(),
    ensures
        scores[i] == scores[0] || ar.le_spec(scores[i], scores[0]),
    decreases i,
{
    if i > 0 {
        steps_down(ar, scores, i - 1);
        let (x, y) = (scores[i - 1], scores[i]);
        assert(crate::planner::score::better(ar, y, x));
    }
}

/// Adding up the operations in the order of the plan, and not in that of the
/// recipes, moves the score of an expansion by no more than a hair.
pub open spec fn reorders_little<A: Arithmetic>(ar: A, ops_penalty: Scalar, e: Expanded, plan: Plan) -> bool {
    near(
        ar,
        crate::planner::score::score_of(ar, ops_penalty, e),
        ar.plus_spec(
            e.estimated_cost,
            ar.times_spec(
                ops_penalty,
                total(ar, rates(crate::plan::step_texts(plan.recipes@))),
            ),
        ),
    )
}

/// `plan` is the plan of the expansion without a search.
pub open spec fn plans_tree<'a, A: Arithmetic>(x: Expansion<'a, A>, plan: Plan) -> bool {
    let e = x.expanded(Seq::empty());
    (Assembly { ar: x.ar, g: x.g, an: x.an, alts: None }).assembles(
        x.req.target,
        x.req.rate_per_min,
        "tree"@,
        e.ops,
        e.raw,
        e.byproducts,
        e.notes.push(gt_note()),
        plan,
    )
}

impl<'a, A: Arithmetic> Beam<'a, A> {
    /// The plan of a beam search is never worse than the one without a search: its
    /// cost, with the penalty for its operations, is no greater.
    pub proof fn never_worse_than_tree(
        self,
        s: Search,
        extra: Seq<Seq<char>>,
        plan: Plan,
        tree: Plan,
    )
        requires
            compares(*self.ar),
            adds_freely(*self.ar),
            self.no_worse(s),
            self.plans(s, extra, plan),
            plans_tree(self.expansion(), tree),
        ensures
            ({
                let p = plan_score(*self.ar, self.opts.ops_penalty, plan.totals);
                let t = plan_score(*self.ar, self.opts.ops_penalty, tree.totals);
                p == t || self.ar.le_spec(p, t)
            }),
    {
        self.scores_of_plan(s, extra, plan);
        let whole = Assembly { ar: self.ar, g: self.g, an: self.an, alts: None };
        let e = self.start().best;
        whole.totals_are_those_judged(
            self.expansion(),
            e,
            self.req.target,
            self.req.rate_per_min,
            "tree"@,
            e.notes.push(gt_note()),
            tree,
        );
        descent_is_no_greater(*self.ar, self.start().best_score, s.best_score);
    }

    /// What a plan is judged by is near the score of the search.
    proof fn near_score(self, s: Search, extra: Seq<Seq<char>>, plan: Plan)
        requires
            compares(*self.ar),
            self.no_worse(s),
            self.plans(s, extra, plan),
            reorders_little(*self.ar, self.opts.ops_penalty, s.best, plan),
        ensures
            near(
                *self.ar,
                s.best_score,
                plan_score(*self.ar, self.opts.ops_penalty, plan.totals),
            ),
    {
        let whole = Assembly { ar: self.ar, g: self.g, an: self.an, alts: None };
        whole.totals_are_those_judged(
            self.expansion(),
            s.best,
            self.req.target,
            self.req.rate_per_min,
            "beam"@,
            (s.best.notes + extra).push(crate::planner::beam::search_note(s)).push(gt_note()),
            plan,
        );
    }

    /// With numbers that are rounded, too, the plan of a beam search is not worse
    /// than the one without a search by more than a millionth; provided that
    /// rounding moves the sums of their operations by little.
    pub proof fn within_slack_of_tree(
        self,
        s: Search,
        extra: Seq<Seq<char>>,
        plan: Plan,
        tree: Plan,
    )
        requires
            compares(*self.ar),
            leaves_slack(*self.ar),
            self.no_worse(s),
            self.plans(s, extra, plan),
            plans_tree(self.expansion(), tree),
            reorders_little(*self.ar, self.opts.ops_penalty, s.best, plan),
            reorders_little(*self.ar, self.opts.ops_penalty, self.start().best, tree),
        ensures
            self.ar.le_spec(
                plan_score(*self.ar, self.opts.ops_penalty, plan.totals),
                self.ar.plus_spec(
                    plan_score(*self.ar, self.opts.ops_penalty, tree.totals),
                    slack(*self.ar),
                ),
            ),
    {
        self.near_score(s, extra, plan);
        let whole = Assembly { ar: self.ar, g: self.g, an: self.an, alts: None };
        let e = self.start().best;
        whole.totals_are_those_judged(
            self.expansion(),
            e,
            self.req.target,
            self.req.rate_per_min,
            "tree"@,
            e.notes.push(gt_note()),
            tree,
        );
        descent_is_no_greater(*self.ar, self.start().best_score, s.best_score);
        within_slack(
            *self.ar,
            plan_score(*self.ar, self.opts.ops_penalty, plan.totals),
            s.best_score,
            self.start().best_score,
            plan_score(*self.ar, self.opts.ops_penalty, tree.totals),
        );
    }

    /// With numbers that are rounded, too, the plan of a search with an evaluator is
    /// not worse than the one of sampling alone by more than a millionth; provided
    /// that rounding moves the sums of their operations by little.
    pub proof fn within_slack_of_sampling(
        self,
        s: Search,
        extra: Seq<Seq<char>>,
        plan: Plan,
        sampled: Plan,
    )
        requires
            compares(*self.ar),
            leaves_slack(*self.ar),
            self.no_worse(s),
            self.no_worse_than_sampling(s),
            self.plans(s, extra, plan),
            self.no_worse(self.sampling()),
            self.plans(self.sampling(), Seq::empty(), sampled),
            reorders_little(*self.ar, self.opts.ops_penalty, s.best, plan),
            reorders_little(*self.ar, self.opts.ops_penalty, self.sampling().best, sampled),
        ensures
            self.ar.le_spec(
                plan_score(*self.ar, self.opts.ops_penalty, plan.totals),
                self.ar.plus_spec(
                    plan_score(*self.ar, self.opts.ops_penalty, sampled.totals),
                    slack(*self.ar),
                ),
            ),
    {
        self.near_score(s, extra, plan);
        self.near_score(self.sampling(), Seq::empty(), sampled);
        let a = self.sampling().best_score;
        assert(self.ar.le_spec(a, a) && self.ar.le_spec(s.best_score, s.best_score));
        assert(s.best_score == a || self.ar.le_spec(s.best_score, a));
        within_slack(
            *self.ar,
            plan_score(*self.ar, self.opts.ops_penalty, plan.totals),
            s.best_score,
            a,
            plan_score(*self.ar, self.opts.ops_penalty, sampled.totals),
        );
    }

    /// What a plan is judged by is the score of the search.
    pub proof fn scores_of_plan(self, s: Search, extra: Seq<Seq<char>>, plan: Plan)
        requires
            compares(*self.ar),
            adds_freely(*self.ar),
            self.no_worse(s),
            self.plans(s, extra, plan),
        ensures
            plan_score(*self.ar, self.opts.ops_penalty, plan.totals) == s.best_score,
    {
        let whole = Assembly { ar: self.ar, g: self.g, an: self.an, alts: None };
        whole.totals_are_those_judged(
            self.expansion(),
            s.best,
            self.req.target,
            self.req.rate_per_min,
            "beam"@,
            (s.best.notes + extra).push(crate::planner::beam::search_note(s)).push(gt_note()),
            plan,
        );
    }

    /// The plan of a search with an evaluator is never worse than the one of
    /// sampling alone.
    pub proof fn never_worse_than_sampling(
        self,
        s: Search,
        extra: Seq<Seq<char>>,
        plan: Plan,
        sampled: Plan,
    )
        requires
            compares(*self.ar),
            adds_freely(*self.ar),
            self.no_worse(s),
            self.no_worse_than_sampling(s),
            self.plans(s, extra, plan),
            self.no_worse(self.sampling()),
            self.plans(self.sampling(), Seq::empty(), sampled),
        ensures
            ({
                let p = plan_score(*self.ar, self.opts.ops_penalty, plan.totals);
                let c = plan_score(*self.ar, self.opts.ops_penalty, sampled.totals);
                p == c || !self.ar.lt_spec(c, p)
            }),
    {
        self.scores_of_plan(s, extra, plan);
        self.scores_of_plan(self.sampling(), Seq::empty(), sampled);
    }
}

impl<'a, A: Arithmetic> Mcts<'a, A> {
    /// The plan of a tree search is never worse than the one without a search: its
    /// cost, with a little for its operations, is no greater.
    pub proof fn never_worse_than_tree(self, f: Forest, plan: Plan, tree: Plan)
        requires
            compares(*self.ar),
            adds_freely(*self.ar),
            self.no_worse(f),
            self.plans(f, plan),
            plans_tree(self.expansion(), tree),
        ensures
            ({
                let p = plan_score(*self.ar, self.penalty(), plan.totals);
                let t = plan_score(*self.ar, self.penalty(), tree.totals);
                p == t || self.ar.le_spec(p, t)
            }),
    {
        let whole = Assembly { ar: self.ar, g: self.g, an: self.an, alts: None };
        let e = f.nodes[f.best].result;
        whole.totals_are_those_judged(
            self.expansion(),
            e,
            self.req.target,
            self.req.rate_per_min,
            "mcts"@,
            e.notes.push(self.note(f)),
            plan,
        );
        let first = self.expansion().expanded(Seq::empty());
        whole.totals_are_those_judged(
            self.expansion(),
            first,
            self.req.target,
            self.req.rate_per_min,
            "tree"@,
            first.notes.push(gt_note()),
            tree,
        );
        descent_is_no_greater(*self.ar, self.start().best_score, f.best_score);
    }

    /// With numbers that are rounded, too, the plan of a tree search is not worse
    /// than the one without a search by more than a millionth; provided that
    /// rounding moves the sums of their operations by little.
    pub proof fn within_slack_of_tree(self, f: Forest, plan: Plan, tree: Plan)
        requires
            compares(*self.ar),
            leaves_slack(*self.ar),
            self.no_worse(f),
            self.plans(f, plan),
            plans_tree(self.expansion(), tree),
            reorders_little(*self.ar, self.penalty(), f.nodes[f.best].result, plan),
            reorders_little(
                *self.ar,
                self.penalty(),
                self.expansion().expanded(Seq::empty()),
                tree,
            ),
        ensures
            self.ar.le_spec(
                plan_score(*self.ar, self.penalty(), plan.totals),
                self.ar.plus_spec(
                    plan_score(*self.ar, self.penalty(), tree.totals),
                    slack(*self.ar),
                ),
            ),
    {
        let whole = Assembly { ar: self.ar, g: self.g, an: self.an, alts: None };
        let e = f.nodes[f.best].result;
        whole.totals_are_those_judged(
            self.expansion(),
            e,
            self.req.target,
            self.req.rate_per_min,
            "mcts"@,
            e.notes.push(self.note(f)),
            plan,
        );
        let first = self.expansion().expanded(Seq::empty());
        whole.totals_are_those_judged(
            self.expansion(),
            first,
            self.req.target,
            self.req.rate_per_min,
            "tree"@,
            first.notes.push(gt_note()),
            tree,
        );
        descent_is_no_greater(*self.ar, self.start().best_score, f.best_score);
        within_slack(
            *self.ar,
            plan_score(*self.ar, self.penalty(), plan.totals),
            f.best_score,
            self.start().best_score,
            plan_score(*self.ar, self.penalty(), tree.totals),
        );
    }

    /// Without a simulation the plan is the one without a search.
    pub proof fn no_simulation_no_change(self, plan: Plan, tree: Plan)
        requires
            self.plans(self.simulated(0), plan),
            plans_tree(self.expansion(), tree),
        ensures
            crate::plan::step_texts(plan.recipes@) == crate::plan::step_texts(tree.recipes@),
            crate::plan::entry_texts(plan.raw_materials@) == crate::plan::entry_texts(
                tree.raw_materials@,
            ),
            crate::plan::entry_texts(plan.byproducts@) == crate::plan::entry_texts(tree.byproducts@),
    {
        let whole = Assembly { ar: self.ar, g: self.g, an: self.an, alts: None };
        let e = self.expansion().expanded(Seq::empty());
        let f = self.simulated(0);
        assert(f.nodes[f.best].result == e);
        whole.one_expansion_one_plan(
            e,
            self.req.target,
            self.req.rate_per_min,
            "mcts"@,
            "tree"@,
            e.notes.push(self.note(f)),
            e.notes.push(gt_note()),
            plan,
            tree,
        );
    }
}

} // verus!

//! Search around the expansion of a demand: a beam of assignments of recipes.
//!
//! The expansion with the best recipes is the start. A candidate gives one
//! material another recipe, and is judged by its whole expansion, so every
//! candidate is a complete plan. The best candidates of a round are varied in
//! the next one, until none is better.
//!
//! Candidates are either sampled, or judged roughly in a batch by an evaluator
//! and then expanded where they look best. Sampling follows in any case, and from
//! the start too, so that an evaluator never makes a plan worse.
use std::collections::HashSet;

use vstd::prelude::*;

use crate::analysis::Analysis;
use crate::choices::Choices;
use crate::graph::KnowledgeGraph;
use crate::list::sum_capped;
use crate::model::{MaterialId, RecipeId};
use crate::order::{reorder, sort_positions};
use crate::plan::{Plan, PlanMetrics};
use crate::planner::assemble::Assembly;
use crate::planner::score::{is_better, rate};
use crate::planner::tree::{expand_tree, Expanded, Expansion, PlanRequest, TreeResult};
use crate::scalar::{Arithmetic, Scalar};
use crate::text::{decimal_string, joined};
use crate::util::{mat_norm_qty, output_qty_of, recipe_cost, tier_allowed};

verus! {

/// How a beam search is run.
#[derive(Clone, Debug)]
pub struct BeamOptions {
    /// How many assignments are kept from round to round.
    pub beam_width: usize,
    /// How many other recipes are tried for a material.
    pub candidate_limit: usize,
    pub max_iterations: usize,
    /// How many materials of an assignment are varied, when sampling.
    pub sample_per_state: usize,
    /// What an operation counts, in raw items.
    pub ops_penalty: Scalar,
    /// The highest tier of machines; none means no limit.
    pub max_tier: Option<u8>,
}

impl BeamOptions {
    /// The options that are used where none are given.
    pub fn standard<A: Arithmetic>(ar: &A) -> (r: Self)
        ensures
            r == (BeamOptions {
                beam_width: 8,
                candidate_limit: 3,
                max_iterations: 12,
                sample_per_state: 24,
                ops_penalty: ar.ratio_spec(1, 1000),
                max_tier: None,
            }),
    {
        BeamOptions {
            beam_width: 8,
            candidate_limit: 3,
            max_iterations: 12,
            sample_per_state: 24,
            ops_penalty: ar.ratio(1, 1000),
            max_tier: None,
        }
    }
}

/// Judges many assignments roughly; smaller scores are better.
pub trait BatchEvaluator: Sized {
    /// The evaluator is `before`, once it was told this plan, and nothing else.
    spec fn prepared_from(
        &self,
        before: &Self,
        g: &KnowledgeGraph,
        an: &Analysis,
        target: MaterialId,
        rate_per_min: Scalar,
        choices: &Choices,
    ) -> bool;

    /// Is told the plan that the search starts from. One that has no use for it
    /// does nothing.
    fn prepare(
        &mut self,
        g: &KnowledgeGraph,
        an: &Analysis,
        target: MaterialId,
        rate_per_min: Scalar,
        choices: &Choices,
    )
        requires
            target < g.m_count(),
            choices.fits(*g),
        ensures
            final(self).prepared_from(old(self), g, an, target, rate_per_min, choices),
    ;

    /// A score for each assignment.
    fn evaluate(&self, choices: &Vec<Choices>) -> Vec<Scalar>
        requires
            exists|
                before: &Self,
                g: &KnowledgeGraph,
                an: &Analysis,
                target: MaterialId,
                rate_per_min: Scalar,
                plan: &Choices,
            | #[trigger]
                self.prepared_from(before, g, an, target, rate_per_min, plan),
    ;

    /// What the plan calls the evaluator.
    fn name(&self) -> String {
        "batch".to_owned()
    }
}

/// The evaluator may answer with these scores for these assignments.
pub open spec fn evaluates<E: BatchEvaluator>(ev: E, cands: Vec<Choices>, scores: Vec<Scalar>) -> bool {
    call_ensures(E::evaluate, (&ev, &cands), scores)
}

/// The evaluator may give this name.
pub open spec fn is_called<E: BatchEvaluator>(ev: E, name: String) -> bool {
    call_ensures(E::name, (&ev,), name)
}

/// The hash of the first `i` entries of an assignment.
pub open spec fn hash_to(entries: Seq<(MaterialId, RecipeId)>, i: int) -> u64
    decreases i,
{
    if i <= 0 {
        1469598103934665603
    } else {
        let (m, r) = entries[i - 1];
        let h = (hash_to(entries, i - 1) ^ (m as u64)).wrapping_mul(1099511628211);
        (h ^ (r as u64)).wrapping_mul(1099511628211)
    }
}

/// The hash of an assignment.
pub open spec fn hash_of(entries: Seq<(MaterialId, RecipeId)>) -> u64 {
    hash_to(entries, entries.len() as int)
}

/// The hash of an assignment (FNV over its entries in ascending order).
pub fn choices_hash(choices: &Choices) -> (h: u64)
    ensures
        h == hash_of(choices.entries@),
{
    let mut h: u64 = 1469598103934665603;
    let mut i: usize = 0;
    while i < choices.entries.len()
        invariant
            i <= choices.entries@.len(),
            h == hash_to(choices.entries@, i as int),
        decreases choices.entries@.len() - i,
    {
        let (m, r): (u32, u32) = choices.entries[i];
        h = (h ^ (m as u64)).wrapping_mul(1099511628211);
        h = (h ^ (r as u64)).wrapping_mul(1099511628211);
        i += 1;
    }
    h
}

/// What a unit of `m` costs by another recipe that can be used for it: one that
/// can be planned with, within the tier, with inputs, and not dominated.
pub open spec fn alternative_price<A: Arithmetic>(
    ar: A,
    g: KnowledgeGraph,
    an: Analysis,
    m: MaterialId,
    current: Option<RecipeId>,
    max_tier: Option<u8>,
    rid: RecipeId,
) -> Option<Scalar> {
    let r = g.recipes@[rid as int];
    let rc = crate::util::recipe_cost_spec(
        ar,
        g,
        an.cost.unit_cost@,
        Some(an.cost.cyclic@),
        r,
    );
    match crate::util::qty_in(r.outputs@, m) {
        Some(q) => {
            let nq = crate::util::mat_norm_spec(ar, g, m, q);
            if current != Some(rid) && g.plannable@[rid as int] && crate::util::tier_allowed_spec(
                g,
                rid,
                max_tier,
            ) && r.inputs@.len() > 0 && !an.dominated_spec(rid, m) && ar.finite_spec(rc)
                && !ar.le_spec(nq, ar.ratio_spec(0, 1)) {
                Some(ar.over_spec(rc, nq))
            } else {
                None
            }
        },
        None => None,
    }
}

/// The other recipes among the first `i` producers of `m`, with their prices.
pub open spec fn priced_to<A: Arithmetic>(
    ar: A,
    g: KnowledgeGraph,
    an: Analysis,
    m: MaterialId,
    current: Option<RecipeId>,
    max_tier: Option<u8>,
    i: int,
) -> Seq<(RecipeId, Scalar)>
    decreases i,
{
    if i <= 0 {
        Seq::empty()
    } else {
        let rest = priced_to(ar, g, an, m, current, max_tier, i - 1);
        let rid = g.producers@[m as int]@[i - 1];
        match alternative_price(ar, g, an, m, current, max_tier, rid) {
            Some(p) => rest.push((rid, p)),
            None => rest,
        }
    }
}

/// Cheaper recipes first, recipes of one price by number.
pub open spec fn price_order<A: Arithmetic>(ar: A, s: Seq<(RecipeId, Scalar)>) -> spec_fn(
    int,
    int,
) -> bool {
    |i: int, j: int|
        ar.total_before_spec(s[i].1, s[j].1) || (!ar.total_before_spec(s[j].1, s[i].1) && s[i].0
            < s[j].0)
}

pub(crate) proof fn price_order_orders<A: Arithmetic>(ar: A, s: Seq<(RecipeId, Scalar)>)
    ensures
        crate::order::orders(price_order(ar, s), s.len() as int),
{
    ar.total_before_orders();
    let lt = price_order(ar, s);
    let n = s.len() as int;
    assert forall|i: int, j: int, k: int|
        0 <= i < n && 0 <= j < n && 0 <= k < n && #[trigger] lt(i, j) && #[trigger] lt(
            j,
            k,
        ) implies lt(i, k) by {
        let (a, b, c) = (s[i].1, s[j].1, s[k].1);
        if ar.total_before_spec(a, b) {
            assert(ar.total_before_spec(a, c) || ar.total_before_spec(c, b));
        } else if ar.total_before_spec(b, c) {
            assert(ar.total_before_spec(b, a) || ar.total_before_spec(a, c));
        } else if ar.total_before_spec(c, a) {
            assert(ar.total_before_spec(c, b) || ar.total_before_spec(b, a));
        }
    }
    assert forall|i: int, j: int, k: int|
        #![trigger lt(i, k), lt(i, j)]
        #![trigger lt(i, k), lt(j, k)]
        0 <= i < n && 0 <= j < n && 0 <= k < n && lt(i, k) implies lt(i, j) || lt(j, k) by {
        let (a, b, c) = (s[i].1, s[j].1, s[k].1);
        if ar.total_before_spec(a, c) {
            assert(ar.total_before_spec(a, b) || ar.total_before_spec(b, c));
        } else if !lt(i, j) && !lt(j, k) {
            if ar.total_before_spec(b, a) {
                assert(ar.total_before_spec(b, c) || ar.total_before_spec(c, a));
            }
            if ar.total_before_spec(c, b) {
                assert(ar.total_before_spec(c, a) || ar.total_before_spec(a, b));
            }
        }
    }
}

/// The recipes of a list of priced recipes.
pub open spec fn recipes_of(s: Seq<(RecipeId, Scalar)>) -> Seq<RecipeId> {
    s.map_values(|p: (RecipeId, Scalar)| p.0)
}

/// The other recipes for `m`, cheapest first, at most `limit`.
pub open spec fn alternatives<A: Arithmetic>(
    ar: A,
    g: KnowledgeGraph,
    an: Analysis,
    m: MaterialId,
    current: Option<RecipeId>,
    limit: usize,
    max_tier: Option<u8>,
) -> Seq<RecipeId> {
    let priced = priced_to(
        ar,
        g,
        an,
        m,
        current,
        max_tier,
        g.producers@[m as int]@.len() as int,
    );
    let all = recipes_of(crate::order::sorted(priced, price_order(ar, priced)));
    all.take(
        if all.len() < limit {
            all.len() as int
        } else {
            limit as int
        },
    )
}

proof fn priced_make<A: Arithmetic>(
    ar: A,
    g: KnowledgeGraph,
    an: Analysis,
    m: MaterialId,
    current: Option<RecipeId>,
    max_tier: Option<u8>,
    i: int,
)
    requires
        g.wf(),
        m < g.m_count(),
        0 <= i <= g.producers@[m as int]@.len(),
    ensures
        priced_to(ar, g, an, m, current, max_tier, i).len() <= i,
        forall|k: int|
            0 <= k < priced_to(ar, g, an, m, current, max_tier, i).len() ==> {
                let rid = (#[trigger] priced_to(ar, g, an, m, current, max_tier, i)[k]).0;
                crate::algo::cost::makes(g, rid, m) && crate::util::tier_allowed_spec(
                    g,
                    rid,
                    max_tier,
                ) && current != Some(rid)
            },
    decreases i,
{
    if i > 0 {
        priced_make(ar, g, an, m, current, max_tier, i - 1);
        let rid = g.producers@[m as int]@[i - 1];
        let p = |r: int| g.produces(r, m as int as u32);
        assert(crate::graph::lists(g.producers@[m as int]@, g.r_count(), p));
        assert(p(rid as int));
    }
}

/// The other recipes for a material make it, can be planned with, are of an
/// allowed tier, and are not the current one.
pub proof fn alternatives_make<A: Arithmetic>(
    ar: A,
    g: KnowledgeGraph,
    an: Analysis,
    m: MaterialId,
    current: Option<RecipeId>,
    limit: usize,
    max_tier: Option<u8>,
)
    requires
        g.wf(),
        m < g.m_count(),
    ensures
        forall|i: int|
            0 <= i < alternatives(ar, g, an, m, current, limit, max_tier).len() ==> {
                let rid = #[trigger] alternatives(ar, g, an, m, current, limit, max_tier)[i];
                crate::algo::cost::makes(g, rid, m) && crate::util::tier_allowed_spec(
                    g,
                    rid,
                    max_tier,
                ) && current != Some(rid)
            },
{
    let n = g.producers@[m as int]@.len() as int;
    let priced = priced_to(ar, g, an, m, current, max_tier, n);
    priced_make(ar, g, an, m, current, max_tier, n);
    price_order_orders(ar, priced);
    assert(n == g.producers@[m as int].len());
    crate::order::sorted_holds(priced, price_order(ar, priced));
    let ranked = crate::order::sorted(priced, price_order(ar, priced));
    let all = alternatives(ar, g, an, m, current, limit, max_tier);
    assert forall|i: int| 0 <= i < all.len() implies {
        let rid = #[trigger] all[i];
        crate::algo::cost::makes(g, rid, m) && crate::util::tier_allowed_spec(g, rid, max_tier)
            && current != Some(rid)
    } by {
        assert(all[i] == ranked[i].0);
        assert(priced.contains(ranked[i]));
        let k = choose|k: int| 0 <= k < priced.len() && priced[k] == ranked[i];
        assert(priced_to(ar, g, an, m, current, max_tier, n)[k].0 == all[i]);
    }
}

/// The other recipes for a material, cheapest first, at most `limit`. The
/// current recipe is not among them.
pub fn recipe_alternatives<A: Arithmetic>(
    ar: &A,
    g: &KnowledgeGraph,
    an: &Analysis,
    m: MaterialId,
    current: Option<RecipeId>,
    limit: usize,
    max_tier: Option<u8>,
) -> (r: Vec<RecipeId>)
    requires
        an.fits(*ar, *g),
        m < g.m_count(),
    ensures
        r@ == alternatives(*ar, *g, *an, m, current, limit, max_tier),
        forall|i: int| 0 <= i < r@.len() ==> #[trigger] r@[i] < g.r_count(),
{
    let zero = ar.ratio(0, 1);
    let prods = &g.producers[m as usize];
    let mut cands: Vec<(RecipeId, Scalar)> = Vec::new();
    let mut i: usize = 0;
    while i < prods.len()
        invariant
            i <= prods@.len(),
            an.fits(*ar, *g),
            m < g.m_count(),
            zero == ar.ratio_spec(0, 1),
            prods@ == g.producers@[m as int]@,
            cands@ == priced_to(*ar, *g, *an, m, current, max_tier, i as int),
            forall|k: int| 0 <= k < cands@.len() ==> (#[trigger] cands@[k]).0 < g.r_count(),
        decreases prods@.len() - i,
    {
        let rid: u32 = prods[i];
        proof {
            let p = |r: int| g.produces(r, m as int as u32);
            assert(crate::graph::lists(g.producers@[m as int]@, g.r_count(), p));
        }
        let is_current = match current {
            Some(c) => c == rid,
            None => false,
        };
        let r = g.recipe(rid);
        if !is_current && g.is_plannable(rid) && tier_allowed(g, rid, max_tier) && r.inputs.len()
            > 0 && !an.is_dominated_for(rid, m) {
            if let Some(out_q) = output_qty_of(r, m) {
                let rc = recipe_cost(ar, g, &an.cost.unit_cost, Some(&an.cost.cyclic), r);
                let nq = mat_norm_qty(ar, g, m, out_q);
                if ar.is_finite(rc) && !ar.le(nq, zero) {
                    cands.push((rid, ar.over(rc, nq)));
                }
            }
        }
        i += 1;
    }
    let ghost before = price_order(*ar, cands@);
    proof {
        price_order_orders(*ar, cands@);
    }
    let less = |i: usize, j: usize| -> (b: bool)
        requires
            i < cands@.len() && j < cands@.len(),
        ensures
            b == (ar.total_before_spec(cands@[i as int].1, cands@[j as int].1) || (
            !ar.total_before_spec(cands@[j as int].1, cands@[i as int].1) && cands@[i as int].0
                < cands@[j as int].0)),
        {
            ar.total_before(cands[i].1, cands[j].1) || (!ar.total_before(cands[j].1, cands[i].1)
                && cands[i].0 < cands[j].0)
        };
    let p = sort_positions(cands.len(), less, Ghost(before));
    proof {
        crate::order::sorted_is(cands@, before, p@);
    }
    let ghost all = recipes_of(crate::order::sorted(cands@, before));
    assert(all.len() == p@.len());
    let mut r: Vec<RecipeId> = Vec::new();
    let mut i: usize = 0;
    while i < p.len() && i < limit
        invariant
            i <= p@.len(),
            i <= limit,
            crate::order::stable_order(before, cands@.len() as int, p@),
            all == recipes_of(crate::order::listed(cands@, p@)),
            forall|k: int| 0 <= k < cands@.len() ==> (#[trigger] cands@[k]).0 < g.r_count(),
            r@ == all.take(i as int),
            forall|k: int| 0 <= k < r@.len() ==> #[trigger] r@[k] < g.r_count(),
        decreases p@.len() - i,
    {
        r.push(cands[p[i]].0);
        i += 1;
        assert(r@ =~= all.take(i as int));
    }
    r
}

/// The request of a search.
pub open spec fn request(target: MaterialId, rate_per_min: Scalar, opts: BeamOptions) -> PlanRequest {
    PlanRequest { target, rate_per_min, max_ops: 200_000, max_tier: opts.max_tier }
}

/// One more, up to the greatest number.
pub open spec fn one_more(n: usize) -> usize {
    if n < usize::MAX {
        (n + 1) as usize
    } else {
        n
    }
}

/// One more, up to the greatest number.
pub fn count_one(n: usize) -> (r: usize)
    ensures
        r == one_more(n),
{
    if n < usize::MAX {
        n + 1
    } else {
        n
    }
}

/// A beam search.
pub struct Beam<'a, A> {
    pub ar: &'a A,
    pub g: &'a KnowledgeGraph,
    pub an: &'a Analysis,
    pub req: PlanRequest,
    pub opts: &'a BeamOptions,
}

/// A beam search on its way.
pub struct Search {
    pub best: Expanded,
    pub best_score: Scalar,
    /// The assignments that are varied next.
    pub frontier: Seq<Seq<(MaterialId, RecipeId)>>,
    /// The hashes of the assignments that were met.
    pub seen: Set<u64>,
    /// How many candidates were expanded.
    pub evals: usize,
    pub rounds: usize,
    /// Something better than the start was found.
    pub improved: bool,
}

/// A round of sampling on its way.
pub struct Round {
    pub seen: Set<u64>,
    pub evals: usize,
    pub cands: Seq<(Scalar, Expanded)>,
}

/// A round of batch evaluation on its way.
pub struct Gathered {
    pub seen: Set<u64>,
    pub cands: Seq<Seq<(MaterialId, RecipeId)>>,
}

/// The candidates of a batch that were expanded so far.
pub struct Refined {
    pub evals: usize,
    pub best: Option<(Scalar, usize, Expanded)>,
}

/// Candidates with smaller scores first.
pub open spec fn score_order<A: Arithmetic>(ar: A, s: Seq<(Scalar, Expanded)>) -> spec_fn(
    int,
    int,
) -> bool {
    |i: int, j: int| ar.total_before_spec(s[i].0, s[j].0)
}

/// Positions with smaller scores first.
pub open spec fn rough_order<A: Arithmetic>(ar: A, s: Seq<usize>, scores: Seq<Scalar>) -> spec_fn(
    int,
    int,
) -> bool {
    |i: int, j: int| ar.total_before_spec(scores[s[i] as int], scores[s[j] as int])
}

/// The positions below `i` whose score is finite.
pub open spec fn finite_to<A: Arithmetic>(ar: A, scores: Seq<Scalar>, i: int) -> Seq<usize>
    decreases i,
{
    if i <= 0 {
        Seq::empty()
    } else if i <= scores.len() && ar.finite_spec(scores[i - 1]) {
        finite_to(ar, scores, i - 1).push((i - 1) as usize)
    } else {
        finite_to(ar, scores, i - 1)
    }
}

/// The first `j` of the positions, without `skip`.
pub open spec fn others_to(top: Seq<usize>, skip: usize, j: int) -> Seq<usize>
    decreases j,
{
    if j <= 0 {
        Seq::empty()
    } else if top[j - 1] != skip {
        others_to(top, skip, j - 1).push(top[j - 1])
    } else {
        others_to(top, skip, j - 1)
    }
}

/// The first items of a list, at most `n`.
pub open spec fn first_of<T>(s: Seq<T>, n: int) -> Seq<T> {
    s.take(
        if s.len() < n {
            s.len() as int
        } else {
            n
        },
    )
}

impl<'a, A: Arithmetic> Beam<'a, A> {
    /// The request is one for the graph, with the tier of the options.
    pub open spec fn ok(self) -> bool {
        &&& self.an.fits(*self.ar, *self.g)
        &&& self.req.target < self.g.m_count()
        &&& self.req.max_tier == self.opts.max_tier
    }

    /// What candidates are judged by.
    pub open spec fn expansion(self) -> Expansion<'a, A> {
        Expansion { ar: self.ar, g: self.g, an: self.an, req: &self.req }
    }

    /// The state before the first round.
    pub open spec fn start(self) -> Search {
        let e = self.expansion().expanded(Seq::empty());
        Search {
            best: e,
            best_score: crate::planner::score::score_of(*self.ar, self.opts.ops_penalty, e),
            frontier: seq![e.choices],
            seen: Set::<u64>::empty().insert(hash_of(e.choices)),
            evals: 0,
            rounds: 0,
            improved: false,
        }
    }

    /// The other recipes that are tried for an entry.
    pub open spec fn tried(self, entry: (MaterialId, RecipeId)) -> Seq<RecipeId> {
        alternatives(
            *self.ar,
            *self.g,
            *self.an,
            entry.0,
            Some(entry.1),
            self.opts.candidate_limit,
            self.opts.max_tier,
        )
    }

    /// Entry `p` of `n` is sampled.
    pub open spec fn samples(self, p: int, n: int) -> bool {
        let sample = self.opts.sample_per_state as int;
        let each = n / (if sample < 1 { 1 } else { sample });
        let step = if each < 1 { 1 } else { each };
        p % step == 0 && p / step < sample
    }

    /// A candidate is expanded.
    pub open spec fn attempt(self, r: Round, choices: Seq<(MaterialId, RecipeId)>) -> Round {
        let e = self.expansion().expanded(choices);
        let h = hash_of(e.choices);
        Round {
            seen: r.seen.insert(h),
            evals: one_more(r.evals),
            cands: if r.seen.contains(h) {
                r.cands
            } else {
                r.cands.push((crate::planner::score::score_of(*self.ar, self.opts.ops_penalty, e), e))
            },
        }
    }

    /// After the first `a` other recipes for entry `p`.
    pub open spec fn attempt_alts(
        self,
        r: Round,
        choices: Seq<(MaterialId, RecipeId)>,
        p: int,
        a: int,
    ) -> Round
        decreases a,
    {
        if a <= 0 {
            r
        } else {
            self.attempt(
                self.attempt_alts(r, choices, p, a - 1),
                crate::choices::with_choice(
                    choices,
                    choices[p].0,
                    self.tried(choices[p])[a - 1],
                ),
            )
        }
    }

    /// After the first `p` entries of an assignment.
    pub open spec fn attempt_entries(
        self,
        r: Round,
        choices: Seq<(MaterialId, RecipeId)>,
        p: int,
    ) -> Round
        decreases p,
    {
        if p <= 0 {
            r
        } else {
            let before = self.attempt_entries(r, choices, p - 1);
            if self.samples(p - 1, choices.len() as int) {
                self.attempt_alts(
                    before,
                    choices,
                    p - 1,
                    self.tried(choices[p - 1]).len() as int,
                )
            } else {
                before
            }
        }
    }

    /// After the first `f` assignments of the frontier.
    pub open spec fn attempt_frontier(
        self,
        r: Round,
        frontier: Seq<Seq<(MaterialId, RecipeId)>>,
        f: int,
    ) -> Round
        decreases f,
    {
        if f <= 0 {
            r
        } else {
            self.attempt_entries(
                self.attempt_frontier(r, frontier, f - 1),
                frontier[f - 1],
                frontier[f - 1].len() as int,
            )
        }
    }

    /// The candidates of a round of sampling, best first.
    pub open spec fn ranked(self, s: Search) -> Seq<(Scalar, Expanded)> {
        let r = self.attempt_frontier(
            Round { seen: s.seen, evals: s.evals, cands: Seq::empty() },
            s.frontier,
            s.frontier.len() as int,
        );
        crate::order::sorted(r.cands, score_order(*self.ar, r.cands))
    }

    /// A round of sampling finds something better.
    pub open spec fn sampling_helps(self, s: Search) -> bool {
        self.ranked(s).len() > 0 && crate::planner::score::better(*self.ar, self.ranked(s)[0].0, s.best_score)
    }

    /// The state after a round of sampling.
    pub open spec fn sampled(self, s: Search) -> Search {
        let r = self.attempt_frontier(
            Round { seen: s.seen, evals: s.evals, cands: Seq::empty() },
            s.frontier,
            s.frontier.len() as int,
        );
        let ranked = self.ranked(s);
        let t = Search { seen: r.seen, evals: r.evals, rounds: one_more(s.rounds), ..s };
        if self.sampling_helps(s) {
            let width = if self.opts.beam_width < 1 { 1 } else { self.opts.beam_width as int };
            Search {
                best: ranked[0].1,
                best_score: ranked[0].0,
                frontier: first_of(ranked, width).map_values(
                    |c: (Scalar, Expanded)| c.1.choices,
                ),
                improved: true,
                ..t
            }
        } else {
            t
        }
    }

    /// The state after at most `k` rounds of sampling; a round that finds nothing
    /// better is the last.
    pub open spec fn sampled_times(self, s: Search, k: nat) -> Search
        decreases k,
    {
        if k == 0 {
            s
        } else if self.sampling_helps(s) {
            self.sampled_times(self.sampled(s), (k - 1) as nat)
        } else {
            self.sampled(s)
        }
    }
}

/// A beam search on its way.
pub struct Searching {
    pub best: TreeResult,
    pub best_score: Scalar,
    pub frontier: Vec<Choices>,
    pub seen: HashSet<u64>,
    pub evals: usize,
    pub rounds: usize,
    pub improved: bool,
}

/// The entries of assignments.
pub open spec fn entries_of(v: Seq<Choices>) -> Seq<Seq<(MaterialId, RecipeId)>> {
    v.map_values(|c: Choices| c.entries@)
}

impl View for Searching {
    type V = Search;

    open spec fn view(&self) -> Search {
        Search {
            best: self.best@,
            best_score: self.best_score,
            frontier: entries_of(self.frontier@),
            seen: self.seen@,
            evals: self.evals,
            rounds: self.rounds,
            improved: self.improved,
        }
    }
}

/// Candidates with their results.
spec fn results_of(v: Seq<(Scalar, TreeResult)>) -> Seq<(Scalar, Expanded)> {
    v.map_values(|c: (Scalar, TreeResult)| (c.0, c.1@))
}

impl Searching {
    /// The materials and recipes are those of the graph, and the recipes are
    /// allowed.
    pub open spec fn suits<'a, A: Arithmetic>(self, x: Expansion<'a, A>) -> bool {
        &&& self.best.suits(x)
        &&& forall|i: int| 0 <= i < self.frontier@.len() ==> (#[trigger] self.frontier@[i]).suits(x)
    }
}

impl<'a, A: Arithmetic> Beam<'a, A> {
    proof fn change_suits(self, a: Choices, b: Choices, p: int, k: int)
        requires
            self.ok(),
            a.suits(self.expansion()),
            0 <= p < a.entries@.len(),
            0 <= k < self.tried(a.entries@[p]).len(),
            b.entries@ == crate::choices::with_choice(
                a.entries@,
                a.entries@[p].0,
                self.tried(a.entries@[p])[k],
            ),
        ensures
            b.suits(self.expansion()),
    {
        let (m, r) = (a.entries@[p].0, self.tried(a.entries@[p])[k]);
        assert(a.entries@[p].0 < self.g.m_count());
        alternatives_make(
            *self.ar,
            *self.g,
            *self.an,
            m,
            Some(a.entries@[p].1),
            self.opts.candidate_limit,
            self.opts.max_tier,
        );
        self.expansion().change_suits(a, b, m, r);
    }

    fn expand(&self, choices: &Choices) -> (r: TreeResult)
        requires
            self.ok(),
            choices.suits(self.expansion()),
        ensures
            r.suits(self.expansion()),
            r@ == self.expansion().expanded(choices.entries@),
    {
        let r = expand_tree(self.ar, self.g, self.an, &self.req, choices);
        proof {
            self.expansion().expanded_is(choices.entries@, r@);
            self.expansion().stays_lawful(*choices, r@);
        }
        r
    }

    /// The state before the first round.
    pub fn begin(&self) -> (s: Searching)
        requires
            self.ok(),
        ensures
            s.suits(self.expansion()),
            s@ == self.start(),
    {
        broadcast use vstd::std_specs::hash::group_hash_axioms;

        let none = Choices::new();
        assert(none.entries@ =~= Seq::<(MaterialId, RecipeId)>::empty());
        let best = self.expand(&none);
        let best_score = rate(self.ar, self.opts.ops_penalty, &best);
        let mut frontier: Vec<Choices> = Vec::new();
        frontier.push(best.choices.clone());
        assert(entries_of(frontier@) =~= seq![best@.choices]);
        assert(frontier@[0].suits(self.expansion()));
        let mut seen: HashSet<u64> = HashSet::new();
        seen.insert(choices_hash(&best.choices));
        Searching { best, best_score, frontier, seen, evals: 0, rounds: 0, improved: false }
    }

    fn alternatives_for(&self, entry: (MaterialId, RecipeId)) -> (r: Vec<RecipeId>)
        requires
            self.ok(),
            entry.0 < self.g.m_count(),
        ensures
            r@ == self.tried(entry),
            forall|i: int| 0 <= i < r@.len() ==> #[trigger] r@[i] < self.g.r_count(),
    {
        recipe_alternatives(
            self.ar,
            self.g,
            self.an,
            entry.0,
            Some(entry.1),
            self.opts.candidate_limit,
            self.opts.max_tier,
        )
    }

    fn is_sampled(&self, p: usize, n: usize) -> (r: bool)
        ensures
            r == self.samples(p as int, n as int),
    {
        let sample: usize = self.opts.sample_per_state;
        let each: usize = n / (if sample < 1 { 1 } else { sample });
        let step: usize = if each < 1 { 1 } else { each };
        p % step == 0 && p / step < sample
    }
}

impl<'a, A: Arithmetic> Beam<'a, A> {
    /// The best score is the score of what was found.
    pub open spec fn honest(self, s: Search) -> bool {
        s.best_score == crate::planner::score::score_of(*self.ar, self.opts.ops_penalty, s.best)
    }

    /// Every candidate has its own score.
    pub open spec fn scored(self, cands: Seq<(Scalar, Expanded)>) -> bool {
        forall|i: int| 0 <= i < cands.len() ==> (#[trigger] cands[i]).0 == crate::planner::score::score_of(*self.ar, self.opts.ops_penalty, cands[i].1)
    }

    proof fn alts_scored(self, r: Round, choices: Seq<(MaterialId, RecipeId)>, p: int, a: int)
        requires
            self.scored(r.cands),
        ensures
            self.scored(self.attempt_alts(r, choices, p, a).cands),
        decreases a,
    {
        if a > 0 {
            self.alts_scored(r, choices, p, a - 1);
        }
    }

    proof fn entries_scored(self, r: Round, choices: Seq<(MaterialId, RecipeId)>, p: int)
        requires
            self.scored(r.cands),
        ensures
            self.scored(self.attempt_entries(r, choices, p).cands),
        decreases p,
    {
        if p > 0 {
            self.entries_scored(r, choices, p - 1);
            self.alts_scored(
                self.attempt_entries(r, choices, p - 1),
                choices,
                p - 1,
                self.tried(choices[p - 1]).len() as int,
            );
        }
    }

    proof fn frontier_scored(self, r: Round, frontier: Seq<Seq<(MaterialId, RecipeId)>>, f: int)
        requires
            self.scored(r.cands),
        ensures
            self.scored(self.attempt_frontier(r, frontier, f).cands),
        decreases f,
    {
        if f > 0 {
            self.frontier_scored(r, frontier, f - 1);
            self.entries_scored(
                self.attempt_frontier(r, frontier, f - 1),
                frontier[f - 1],
                frontier[f - 1].len() as int,
            );
        }
    }

    proof fn refine_scored(
        self,
        evals: usize,
        cands: Seq<Seq<(MaterialId, RecipeId)>>,
        top: Seq<usize>,
        j: int,
    )
        ensures
            self.refine_to(evals, cands, top, j).best matches Some((sc, _, e)) ==> sc == crate::planner::score::score_of(*self.ar, self.opts.ops_penalty, 
                e,
            ),
        decreases j,
    {
        if j > 0 {
            self.refine_scored(evals, cands, top, j - 1);
        }
    }
}

/// A round of sampling on its way.
struct Rounding {
    seen: HashSet<u64>,
    evals: usize,
    cands: Vec<(Scalar, TreeResult)>,
}

impl View for Rounding {
    type V = Round;

    closed spec fn view(&self) -> Round {
        Round { seen: self.seen@, evals: self.evals, cands: results_of(self.cands@) }
    }
}

impl Rounding {
    spec fn suits<'a, A: Arithmetic>(self, x: Expansion<'a, A>) -> bool {
        forall|i: int| 0 <= i < self.cands@.len() ==> (#[trigger] self.cands@[i]).1.suits(x)
    }
}

impl<'a, A: Arithmetic> Beam<'a, A> {
    fn run_attempt(&self, r: &mut Rounding, choices: &Choices)
        requires
            self.ok(),
            old(r).suits(self.expansion()),
            choices.suits(self.expansion()),
        ensures
            final(r).suits(self.expansion()),
            final(r)@ == self.attempt(old(r)@, choices.entries@),
    {
        broadcast use vstd::std_specs::hash::group_hash_axioms;

        let ghost before = results_of(r.cands@);
        let e = self.expand(choices);
        r.evals = count_one(r.evals);
        if r.seen.insert(choices_hash(&e.choices)) {
            let score = rate(self.ar, self.opts.ops_penalty, &e);
            let ghost item = (score, e@);
            r.cands.push((score, e));
            assert(results_of(r.cands@) =~= before.push(item));
        } else {
            assert(r.seen@ =~= old(r).seen@.insert(hash_of(e.choices.entries@)));
        }
    }

    fn run_alts(&self, r: &mut Rounding, choices: &Choices, p: usize)
        requires
            self.ok(),
            old(r).suits(self.expansion()),
            choices.suits(self.expansion()),
            p < choices.entries@.len(),
        ensures
            final(r).suits(self.expansion()),
            final(r)@ == self.attempt_alts(
                old(r)@,
                choices.entries@,
                p as int,
                self.tried(choices.entries@[p as int]).len() as int,
            ),
    {
        let entry: (u32, u32) = choices.entries[p];
        assert(choices.entries@[p as int].0 < self.g.m_count());
        let alts = self.alternatives_for(entry);
        let ghost start = r@;
        let mut a: usize = 0;
        while a < alts.len()
            invariant
                a <= alts@.len(),
                self.ok(),
                choices.suits(self.expansion()),
                p < choices.entries@.len(),
                entry == choices.entries@[p as int],
                entry.0 < self.g.m_count(),
                alts@ == self.tried(entry),
                forall|i: int| 0 <= i < alts@.len() ==> #[trigger] alts@[i] < self.g.r_count(),
                r.suits(self.expansion()),
                r@ == self.attempt_alts(start, choices.entries@, p as int, a as int),
            decreases alts@.len() - a,
        {
            let mut child = choices.clone();
            child.insert(entry.0, alts[a]);
            proof {
                self.change_suits(*choices, child, p as int, a as int);
            }
            self.run_attempt(r, &child);
            a += 1;
        }
    }

    fn run_entries(&self, r: &mut Rounding, choices: &Choices)
        requires
            self.ok(),
            old(r).suits(self.expansion()),
            choices.suits(self.expansion()),
        ensures
            final(r).suits(self.expansion()),
            final(r)@ == self.attempt_entries(
                old(r)@,
                choices.entries@,
                choices.entries@.len() as int,
            ),
    {
        let ghost start = r@;
        let mut p: usize = 0;
        while p < choices.entries.len()
            invariant
                p <= choices.entries@.len(),
                self.ok(),
                choices.suits(self.expansion()),
                r.suits(self.expansion()),
                r@ == self.attempt_entries(start, choices.entries@, p as int),
            decreases choices.entries@.len() - p,
        {
            if self.is_sampled(p, choices.entries.len()) {
                self.run_alts(r, choices, p);
            }
            p += 1;
        }
    }

    fn sort_cands(&self, v: Vec<(Scalar, TreeResult)>) -> (r: Vec<(Scalar, TreeResult)>)
        requires
            forall|i: int| 0 <= i < v@.len() ==> (#[trigger] v@[i]).1.suits(self.expansion()),
        ensures
            results_of(r@) == crate::order::sorted(
                results_of(v@),
                score_order(*self.ar, results_of(v@)),
            ),
            forall|i: int| 0 <= i < r@.len() ==> (#[trigger] r@[i]).1.suits(self.expansion()),
            self.scored(results_of(v@)) ==> self.scored(results_of(r@)),
    {
        let ar = self.ar;
        let ghost shown = results_of(v@);
        let ghost before = score_order(*ar, shown);
        proof {
            ar.total_before_orders();
        }
        let less = |i: usize, j: usize| -> (b: bool)
            requires
                i < v@.len() && j < v@.len(),
            ensures
                b == ar.total_before_spec(v@[i as int].0, v@[j as int].0),
            { ar.total_before(v[i].0, v[j].0) };
        let p = sort_positions(v.len(), less, Ghost(before));
        proof {
            crate::order::sorted_is(shown, before, p@);
            crate::order::stable_order_is_permutation(before, v@.len() as int, p@);
        }
        let r = reorder(v, &p);
        assert(results_of(r@) =~= crate::order::listed(shown, p@));
        assert forall|i: int| 0 <= i < r@.len() implies (#[trigger] r@[i]).1.suits(self.expansion()) by {
            assert(r@[i] == v@[p@[i] as int]);
        }
        r
    }

    /// A round of sampling; returns if it found something better.
    ///
    /// The best score stays or gets better, and is the score of the best result.
    pub fn sample(&self, s: &mut Searching) -> (better: bool)
        requires
            self.ok(),
            old(s).suits(self.expansion()),
        ensures
            self.honest(old(s)@) ==> self.honest(final(s)@),
            crate::planner::score::descends(*self.ar, old(s).best_score, final(s).best_score),
            !final(s).improved ==> final(s).best == old(s).best && !old(s).improved,
            final(s).suits(self.expansion()),
            final(s)@ == self.sampled(old(s)@),
            better == self.sampling_helps(old(s)@),
    {
        let ghost start = s@;
        let ghost from = Round { seen: start.seen, evals: start.evals, cands: Seq::empty() };
        s.rounds = count_one(s.rounds);
        let mut seen: HashSet<u64> = HashSet::new();
        core::mem::swap(&mut seen, &mut s.seen);
        let mut r = Rounding { seen, evals: s.evals, cands: Vec::new() };
        assert(r@ =~= from) by {
            assert(results_of(r.cands@) =~= Seq::empty());
        }
        let mut f: usize = 0;
        while f < s.frontier.len()
            invariant
                f <= s.frontier@.len(),
                self.ok(),
                s.suits(self.expansion()),
                r.suits(self.expansion()),
                start.frontier == entries_of(s.frontier@),
                r@ == self.attempt_frontier(from, start.frontier, f as int),
            decreases s.frontier@.len() - f,
        {
            assert(s.frontier@[f as int].suits(self.expansion()));
            self.run_entries(&mut r, &s.frontier[f]);
            f += 1;
        }
        proof {
            self.frontier_scored(from, start.frontier, start.frontier.len() as int);
            crate::planner::score::descends_not(*self.ar, start.best_score);
        }
        let Rounding { seen, evals, cands } = r;
        s.seen = seen;
        s.evals = evals;
        let mut cands = self.sort_cands(cands);
        let ghost ranked = results_of(cands@);
        assert(ranked == self.ranked(start));
        if cands.len() == 0 || !is_better(self.ar, cands[0].0, s.best_score) {
            assert(s@.frontier =~= start.frontier);
            return false;
        }
        let mut frontier: Vec<Choices> = Vec::new();
        let width: usize = if self.opts.beam_width < 1 { 1 } else { self.opts.beam_width };
        let mut i: usize = 0;
        while i < cands.len() && i < width
            invariant
                i <= cands@.len(),
                i <= width,
                frontier@.len() == i,
                forall|k: int| 0 <= k < cands@.len() ==> (#[trigger] cands@[k]).1.suits(self.expansion()),
                forall|k: int| 0 <= k < i ==> (#[trigger] frontier@[k]).suits(self.expansion()),
                forall|k: int|
                    0 <= k < i ==> (#[trigger] frontier@[k]).entries@ == cands@[k].1@.choices,
            decreases cands@.len() - i,
        {
            assert(cands@[i as int].1.suits(self.expansion()));
            frontier.push(cands[i].1.choices.clone());
            i += 1;
        }
        assert(entries_of(frontier@) =~= first_of(ranked, width as int).map_values(
            |c: (Scalar, Expanded)| c.1.choices,
        ));
        let (score, best) = cands.swap_remove(0);
        assert(ranked[0] == (score, best@));
        s.best = best;
        s.best_score = score;
        s.frontier = frontier;
        s.improved = true;
        proof {
            crate::planner::score::descends_further(*self.ar, start.best_score, start.best_score, score);
        }
        true
    }

    /// The rounds of sampling.
    ///
    /// The best score stays or gets better step by step, and is the score of the
    /// best result.
    pub fn sample_all(&self, s: &mut Searching)
        requires
            self.ok(),
            old(s).suits(self.expansion()),
        ensures
            self.honest(old(s)@) ==> self.honest(final(s)@),
            crate::planner::score::descends(*self.ar, old(s).best_score, final(s).best_score),
            !final(s).improved ==> final(s).best == old(s).best && !old(s).improved,
            final(s).suits(self.expansion()),
            final(s)@ == self.sampled_times(old(s)@, self.opts.max_iterations as nat),
    {
        let ghost start = *s;
        let ghost end = self.sampled_times(s@, self.opts.max_iterations as nat);
        let mut left: usize = self.opts.max_iterations;
        proof {
            crate::planner::score::descends_not(*self.ar, start.best_score);
        }
        while left > 0
            invariant_except_break
                self.sampled_times(s@, left as nat) == end,
            invariant
                self.ok(),
                s.suits(self.expansion()),
                self.honest(start@) ==> self.honest(s@),
                crate::planner::score::descends(*self.ar, start.best_score, s.best_score),
                !s.improved ==> s.best == start.best && !start.improved,
            ensures
                s@ == end,
            decreases left,
        {
            let ghost before = s.best_score;
            let better = self.sample(s);
            proof {
                crate::planner::score::descends_on(*self.ar, start.best_score, before, s.best_score);
            }
            if !better {
                break;
            }
            left -= 1;
        }
    }
}

impl<'a, A: Arithmetic> Beam<'a, A> {
    /// A candidate for the batch: kept unless it was met before.
    pub open spec fn gather(self, t: Gathered, choices: Seq<(MaterialId, RecipeId)>) -> Gathered {
        let h = hash_of(choices);
        Gathered {
            seen: t.seen.insert(h),
            cands: if t.seen.contains(h) {
                t.cands
            } else {
                t.cands.push(choices)
            },
        }
    }

    /// After the first `a` other recipes for entry `p`.
    pub open spec fn gather_alts(
        self,
        t: Gathered,
        choices: Seq<(MaterialId, RecipeId)>,
        p: int,
        a: int,
    ) -> Gathered
        decreases a,
    {
        if a <= 0 {
            t
        } else {
            self.gather(
                self.gather_alts(t, choices, p, a - 1),
                crate::choices::with_choice(
                    choices,
                    choices[p].0,
                    self.tried(choices[p])[a - 1],
                ),
            )
        }
    }

    /// After the first `p` entries of an assignment.
    pub open spec fn gather_entries(
        self,
        t: Gathered,
        choices: Seq<(MaterialId, RecipeId)>,
        p: int,
    ) -> Gathered
        decreases p,
    {
        if p <= 0 {
            t
        } else {
            self.gather_alts(
                self.gather_entries(t, choices, p - 1),
                choices,
                p - 1,
                self.tried(choices[p - 1]).len() as int,
            )
        }
    }

    /// After the first `f` assignments of the frontier.
    pub open spec fn gather_frontier(
        self,
        t: Gathered,
        frontier: Seq<Seq<(MaterialId, RecipeId)>>,
        f: int,
    ) -> Gathered
        decreases f,
    {
        if f <= 0 {
            t
        } else {
            self.gather_entries(
                self.gather_frontier(t, frontier, f - 1),
                frontier[f - 1],
                frontier[f - 1].len() as int,
            )
        }
    }

    /// The batch of a state: every assignment that differs from one of the
    /// frontier in one recipe and was not met before.
    #[verifier::opaque]
    pub open spec fn batch(self, s: Search) -> Gathered {
        self.gather_frontier(
            Gathered { seen: s.seen, cands: Seq::empty() },
            s.frontier,
            s.frontier.len() as int,
        )
    }

    /// The positions of a batch of `n` that are expanded: those with a finite
    /// score, best first.
    pub open spec fn top(self, n: nat, scores: Seq<Scalar>) -> Seq<usize> {
        let finite = finite_to(*self.ar, scores, n as int);
        first_of(
            crate::order::sorted(finite, rough_order(*self.ar, finite, scores)),
            if self.opts.beam_width < 48 {
                48
            } else {
                self.opts.beam_width as int
            },
        )
    }

    /// After the first `j` of the positions were expanded.
    pub open spec fn refine_to(
        self,
        evals: usize,
        cands: Seq<Seq<(MaterialId, RecipeId)>>,
        top: Seq<usize>,
        j: int,
    ) -> Refined
        decreases j,
    {
        if j <= 0 {
            Refined { evals, best: None }
        } else {
            let before = self.refine_to(evals, cands, top, j - 1);
            let e = self.expansion().expanded(cands[top[j - 1] as int]);
            let sc = crate::planner::score::score_of(*self.ar, self.opts.ops_penalty, e);
            Refined {
                evals: one_more(before.evals),
                best: match before.best {
                    Some((b, _, _)) if !self.ar.lt_spec(sc, b) => before.best,
                    _ => Some((sc, top[j - 1], e)),
                },
            }
        }
    }

    /// What came of expanding the best of a batch with these scores.
    pub open spec fn refined(
        self,
        s: Search,
        cands: Seq<Seq<(MaterialId, RecipeId)>>,
        scores: Seq<Scalar>,
    ) -> Refined {
        let top = self.top(cands.len(), scores);
        self.refine_to(s.evals, cands, top, top.len() as int)
    }

    /// Something in the batch is better than the best of the state.
    #[verifier::opaque]
    pub open spec fn judged_helps(
        self,
        s: Search,
        cands: Seq<Seq<(MaterialId, RecipeId)>>,
        scores: Seq<Scalar>,
    ) -> bool {
        match self.refined(s, cands, scores).best {
            Some((sc, _, _)) => crate::planner::score::better(*self.ar, sc, s.best_score),
            None => false,
        }
    }

    /// The frontier after a round of batch evaluation that found position `at`
    /// best.
    pub open spec fn next_frontier(
        self,
        cands: Seq<Seq<(MaterialId, RecipeId)>>,
        top: Seq<usize>,
        at: usize,
    ) -> Seq<Seq<(MaterialId, RecipeId)>> {
        let width = if self.opts.beam_width < 1 { 0 } else { self.opts.beam_width - 1 };
        seq![cands[at as int]] + first_of(
            others_to(top, at, top.len() as int),
            width,
        ).map_values(|i: usize| cands[i as int])
    }

    /// The state once the scores of a batch are known.
    #[verifier::opaque]
    pub open spec fn judged(
        self,
        s: Search,
        cands: Seq<Seq<(MaterialId, RecipeId)>>,
        scores: Seq<Scalar>,
    ) -> Search {
        let refined = self.refined(s, cands, scores);
        if self.judged_helps(s, cands, scores) {
            let (sc, at, e) = refined.best->0;
            Search {
                best: e,
                best_score: sc,
                evals: refined.evals,
                improved: true,
                frontier: self.next_frontier(cands, self.top(cands.len(), scores), at),
                ..s
            }
        } else {
            Search { evals: refined.evals, ..s }
        }
    }

    /// The state when a batch is given away: its members count as met.
    pub open spec fn given(self, s: Search) -> Search {
        Search { seen: self.batch(s).seen, rounds: one_more(s.rounds), ..s }
    }

    /// A round of batch evaluation with these scores finds something better.
    pub open spec fn batch_helps(self, s: Search, scores: Seq<Scalar>) -> bool {
        self.judged_helps(self.given(s), self.batch(s).cands, scores)
    }

    /// The state after a round of batch evaluation with these scores.
    pub open spec fn batched(self, s: Search, scores: Seq<Scalar>) -> Search {
        self.judged(self.given(s), self.batch(s).cands, scores)
    }

    /// The state after `k` rounds of batch evaluation; `answers` are the scores of
    /// the batches, one after the other.
    pub open spec fn batch_to(self, s: Search, answers: Seq<Seq<Scalar>>, k: int) -> Search
        decreases k,
    {
        if k <= 0 {
            s
        } else {
            self.batched(self.batch_to(s, answers, k - 1), answers[k - 1])
        }
    }

    /// How many candidates the evaluator is given in the first `k` rounds.
    pub open spec fn given_to(self, s: Search, answers: Seq<Seq<Scalar>>, k: int) -> nat
        decreases k,
    {
        if k <= 0 {
            0
        } else {
            self.given_to(s, answers, k - 1) + self.batch(
                self.batch_to(s, answers, k - 1),
            ).cands.len()
        }
    }

    /// The rounds of batch evaluation lead from `s` to `end` when the evaluator
    /// answers like this. The last round is the first that finds nothing better,
    /// or the last that is allowed; an empty batch is not evaluated, and ends the
    /// rounds too.
    pub open spec fn batch_run(self, s: Search, answers: Seq<Seq<Scalar>>, end: Search) -> bool {
        let n = answers.len() as int;
        &&& n <= self.opts.max_iterations
        &&& forall|j: int|
            #![trigger self.batch_to(s, answers, j)]
            0 <= j < n ==> self.batch(self.batch_to(s, answers, j)).cands.len() > 0 && (j < n - 1
                ==> self.batch_helps(self.batch_to(s, answers, j), answers[j]))
        &&& if n == self.opts.max_iterations || (n > 0 && !self.batch_helps(
            self.batch_to(s, answers, n - 1),
            answers[n - 1],
        )) {
            end == self.batch_to(s, answers, n)
        } else {
            &&& self.batch(self.batch_to(s, answers, n)).cands.len() == 0
            &&& end == self.given(self.batch_to(s, answers, n))
        }
    }

    /// Answer `j` is what the evaluator answers on batch `j`.
    pub open spec fn answered<E: BatchEvaluator>(
        self,
        ev: E,
        s: Search,
        answers: Seq<Seq<Scalar>>,
        j: int,
    ) -> bool {
        exists|cands: Vec<Choices>, scores: Vec<Scalar>| #[trigger]
            evaluates(ev, cands, scores) && entries_of(cands@) == self.batch(
                self.batch_to(s, answers, j),
            ).cands && answers[j] == scores@
    }

    proof fn still_answered<E: BatchEvaluator>(
        self,
        ev: E,
        s: Search,
        answers: Seq<Seq<Scalar>>,
        x: Seq<Scalar>,
        j: int,
    )
        requires
            0 <= j < answers.len(),
            self.answered(ev, s, answers, j),
        ensures
            self.answered(ev, s, answers.push(x), j),
    {
        self.more_answers(s, answers, x, j);
        let (cands, scores) = choose|cands: Vec<Choices>, scores: Vec<Scalar>| #[trigger]
            evaluates(ev, cands, scores) && entries_of(cands@) == self.batch(
                self.batch_to(s, answers, j),
            ).cands && answers[j] == scores@;
        assert(evaluates(ev, cands, scores));
        assert(answers.push(x)[j] == answers[j]);
    }

    proof fn more_answers(self, s: Search, answers: Seq<Seq<Scalar>>, x: Seq<Scalar>, k: int)
        requires
            k <= answers.len(),
        ensures
            self.batch_to(s, answers.push(x), k) == self.batch_to(s, answers, k),
            self.given_to(s, answers.push(x), k) == self.given_to(s, answers, k),
        decreases k,
    {
        if k > 0 {
            self.more_answers(s, answers, x, k - 1);
        }
    }

    /// All rounds so far found something better, and led to `t`.
    #[verifier::opaque]
    spec fn on_course(self, s: Search, answers: Seq<Seq<Scalar>>, t: Search) -> bool {
        &&& t == self.batch_to(s, answers, answers.len() as int)
        &&& forall|j: int|
            #![trigger self.batch_to(s, answers, j)]
            0 <= j < answers.len() ==> self.batch(self.batch_to(s, answers, j)).cands.len() > 0
                && self.batch_helps(self.batch_to(s, answers, j), answers[j])
    }

    proof fn course_starts(self, s: Search)
        ensures
            self.on_course(s, Seq::empty(), s),
            self.given_to(s, Seq::empty(), 0) == 0,
    {
        reveal(Beam::on_course);
    }

    proof fn course_goes_on(
        self,
        s: Search,
        answers: Seq<Seq<Scalar>>,
        t: Search,
        x: Seq<Scalar>,
    )
        requires
            self.on_course(s, answers, t),
            self.batch(t).cands.len() > 0,
            answers.len() < self.opts.max_iterations,
        ensures
            self.batch_helps(t, x) ==> self.on_course(s, answers.push(x), self.batched(t, x)),
            !self.batch_helps(t, x) ==> self.batch_run(s, answers.push(x), self.batched(t, x)),
            self.given_to(s, answers.push(x), answers.len() as int + 1) == self.given_to(
                s,
                answers,
                answers.len() as int,
            ) + self.batch(t).cands.len(),
    {
        reveal(Beam::on_course);
        let next = answers.push(x);
        let n = answers.len() as int;
        assert forall|j: int| 0 <= j <= n implies #[trigger] self.batch_to(s, next, j)
            == self.batch_to(s, answers, j) by {
            self.more_answers(s, answers, x, j);
        }
        self.more_answers(s, answers, x, n);
        assert(self.batch_to(s, next, n) == t);
        assert(next[n] == x);
        assert(self.batch_to(s, next, n + 1) == self.batched(t, x));
    }

    proof fn course_ends(self, s: Search, answers: Seq<Seq<Scalar>>, t: Search)
        requires
            self.on_course(s, answers, t),
            answers.len() <= self.opts.max_iterations,
        ensures
            answers.len() == self.opts.max_iterations ==> self.batch_run(s, answers, t),
            answers.len() < self.opts.max_iterations && self.batch(t).cands.len() == 0
                ==> self.batch_run(s, answers, self.given(t)),
    {
        reveal(Beam::on_course);
        if answers.len() > 0 {
            let last = answers[answers.len() - 1];
            assert(self.batch_helps(self.batch_to(s, answers, answers.len() - 1), last));
        }
    }
}

impl<'a, A: Arithmetic> Beam<'a, A> {
    fn run_gather(&self, seen: &mut HashSet<u64>, cands: &mut Vec<Choices>, choices: Choices)
        requires
            choices.suits(self.expansion()),
            forall|i: int| 0 <= i < old(cands)@.len() ==> (#[trigger] old(cands)@[i]).suits(self.expansion()),
        ensures
            forall|i: int|
                0 <= i < final(cands)@.len() ==> (#[trigger] final(cands)@[i]).suits(self.expansion()),
            (Gathered { seen: final(seen)@, cands: entries_of(final(cands)@) }) == self.gather(
                Gathered { seen: old(seen)@, cands: entries_of(old(cands)@) },
                choices.entries@,
            ),
    {
        broadcast use vstd::std_specs::hash::group_hash_axioms;

        let ghost before = entries_of(cands@);
        let ghost entries = choices.entries@;
        if seen.insert(choices_hash(&choices)) {
            cands.push(choices);
            assert(entries_of(cands@) =~= before.push(entries));
        } else {
            assert(seen@ =~= old(seen)@.insert(hash_of(entries)));
        }
    }

    fn run_gather_alts(
        &self,
        seen: &mut HashSet<u64>,
        cands: &mut Vec<Choices>,
        choices: &Choices,
        p: usize,
    )
        requires
            self.ok(),
            choices.suits(self.expansion()),
            p < choices.entries@.len(),
            forall|i: int| 0 <= i < old(cands)@.len() ==> (#[trigger] old(cands)@[i]).suits(self.expansion()),
        ensures
            forall|i: int|
                0 <= i < final(cands)@.len() ==> (#[trigger] final(cands)@[i]).suits(self.expansion()),
            (Gathered { seen: final(seen)@, cands: entries_of(final(cands)@) }) == self.gather_alts(
                Gathered { seen: old(seen)@, cands: entries_of(old(cands)@) },
                choices.entries@,
                p as int,
                self.tried(choices.entries@[p as int]).len() as int,
            ),
    {
        let entry: (u32, u32) = choices.entries[p];
        assert(choices.entries@[p as int].0 < self.g.m_count());
        let alts = self.alternatives_for(entry);
        let ghost start = Gathered { seen: seen@, cands: entries_of(cands@) };
        let mut a: usize = 0;
        while a < alts.len()
            invariant
                a <= alts@.len(),
                self.ok(),
                choices.suits(self.expansion()),
                p < choices.entries@.len(),
                entry == choices.entries@[p as int],
                entry.0 < self.g.m_count(),
                alts@ == self.tried(entry),
                forall|i: int| 0 <= i < alts@.len() ==> #[trigger] alts@[i] < self.g.r_count(),
                forall|i: int| 0 <= i < cands@.len() ==> (#[trigger] cands@[i]).suits(self.expansion()),
                (Gathered { seen: seen@, cands: entries_of(cands@) }) == self.gather_alts(
                    start,
                    choices.entries@,
                    p as int,
                    a as int,
                ),
            decreases alts@.len() - a,
        {
            let mut child = choices.clone();
            child.insert(entry.0, alts[a]);
            proof {
                self.change_suits(*choices, child, p as int, a as int);
            }
            self.run_gather(seen, cands, child);
            a += 1;
        }
    }

    fn run_gather_entries(&self, seen: &mut HashSet<u64>, cands: &mut Vec<Choices>, choices: &Choices)
        requires
            self.ok(),
            choices.suits(self.expansion()),
            forall|i: int| 0 <= i < old(cands)@.len() ==> (#[trigger] old(cands)@[i]).suits(self.expansion()),
        ensures
            forall|i: int|
                0 <= i < final(cands)@.len() ==> (#[trigger] final(cands)@[i]).suits(self.expansion()),
            (Gathered { seen: final(seen)@, cands: entries_of(final(cands)@) })
                == self.gather_entries(
                Gathered { seen: old(seen)@, cands: entries_of(old(cands)@) },
                choices.entries@,
                choices.entries@.len() as int,
            ),
    {
        let ghost start = Gathered { seen: seen@, cands: entries_of(cands@) };
        let mut p: usize = 0;
        while p < choices.entries.len()
            invariant
                p <= choices.entries@.len(),
                self.ok(),
                choices.suits(self.expansion()),
                forall|i: int| 0 <= i < cands@.len() ==> (#[trigger] cands@[i]).suits(self.expansion()),
                (Gathered { seen: seen@, cands: entries_of(cands@) }) == self.gather_entries(
                    start,
                    choices.entries@,
                    p as int,
                ),
            decreases choices.entries@.len() - p,
        {
            self.run_gather_alts(seen, cands, choices, p);
            p += 1;
        }
    }

    /// The batch that the evaluator is given next. Its members count as met.
    pub fn next_batch(&self, s: &mut Searching) -> (cands: Vec<Choices>)
        requires
            self.ok(),
            old(s).suits(self.expansion()),
        ensures
            final(s).suits(self.expansion()),
            forall|i: int| 0 <= i < cands@.len() ==> (#[trigger] cands@[i]).suits(self.expansion()),
            entries_of(cands@) == self.batch(old(s)@).cands,
            final(s)@ == self.given(old(s)@),
            final(s).best == old(s).best,
    {
        reveal(Beam::batch);
        let ghost start = s@;
        s.rounds = count_one(s.rounds);
        let mut seen: HashSet<u64> = HashSet::new();
        core::mem::swap(&mut seen, &mut s.seen);
        let mut cands: Vec<Choices> = Vec::new();
        let ghost from = Gathered { seen: start.seen, cands: Seq::empty() };
        assert(entries_of(cands@) =~= Seq::empty());
        let mut f: usize = 0;
        while f < s.frontier.len()
            invariant
                f <= s.frontier@.len(),
                self.ok(),
                s.suits(self.expansion()),
                start.frontier == entries_of(s.frontier@),
                forall|i: int| 0 <= i < cands@.len() ==> (#[trigger] cands@[i]).suits(self.expansion()),
                (Gathered { seen: seen@, cands: entries_of(cands@) }) == self.gather_frontier(
                    from,
                    start.frontier,
                    f as int,
                ),
            decreases s.frontier@.len() - f,
        {
            assert(s.frontier@[f as int].suits(self.expansion()));
            self.run_gather_entries(&mut seen, &mut cands, &s.frontier[f]);
            f += 1;
        }
        s.seen = seen;
        cands
    }

    fn list_top(&self, n: usize, scores: &Vec<Scalar>) -> (r: Vec<usize>)
        ensures
            r@ == self.top(n as nat, scores@),
            forall|i: int| 0 <= i < r@.len() ==> #[trigger] r@[i] < n,
    {
        let ar = self.ar;
        let mut finite: Vec<usize> = Vec::new();
        let mut i: usize = 0;
        while i < n
            invariant
                i <= n,
                ar == self.ar,
                finite@ == finite_to(*ar, scores@, i as int),
                forall|k: int|
                    0 <= k < finite@.len() ==> #[trigger] finite@[k] < n && finite@[k]
                        < scores@.len(),
            decreases n - i,
        {
            if i < scores.len() && ar.is_finite(scores[i]) {
                finite.push(i);
            }
            i += 1;
        }
        let ghost before = rough_order(*ar, finite@, scores@);
        proof {
            ar.total_before_orders();
        }
        let less = |i: usize, j: usize| -> (b: bool)
            requires
                i < finite@.len() && j < finite@.len(),
            ensures
                b == ar.total_before_spec(
                    scores@[finite@[i as int] as int],
                    scores@[finite@[j as int] as int],
                ),
            { ar.total_before(scores[finite[i]], scores[finite[j]]) };
        let p = sort_positions(finite.len(), less, Ghost(before));
        proof {
            crate::order::sorted_is(finite@, before, p@);
        }
        let ghost all = crate::order::sorted(finite@, before);
        let limit: usize = if self.opts.beam_width < 48 { 48 } else { self.opts.beam_width };
        let mut r: Vec<usize> = Vec::new();
        let mut i: usize = 0;
        while i < p.len() && i < limit
            invariant
                i <= p@.len(),
                i <= limit,
                crate::order::stable_order(before, finite@.len() as int, p@),
                all == crate::order::listed(finite@, p@),
                forall|k: int| 0 <= k < finite@.len() ==> #[trigger] finite@[k] < n,
                r@ == all.take(i as int),
                forall|k: int| 0 <= k < r@.len() ==> #[trigger] r@[k] < n,
            decreases p@.len() - i,
        {
            r.push(finite[p[i]]);
            i += 1;
            assert(r@ =~= all.take(i as int));
        }
        r
    }

    /// The rest of a round of batch evaluation, once the evaluator has answered
    /// with scores for the batch. Returns if something better was found.
    pub fn judge(&self, s: &mut Searching, cands: &Vec<Choices>, scores: &Vec<Scalar>) -> (better:
        bool)
        requires
            self.ok(),
            old(s).suits(self.expansion()),
            forall|i: int| 0 <= i < cands@.len() ==> (#[trigger] cands@[i]).suits(self.expansion()),
        ensures
            self.honest(old(s)@) ==> self.honest(final(s)@),
            crate::planner::score::descends(*self.ar, old(s).best_score, final(s).best_score),
            !final(s).improved ==> final(s).best == old(s).best && !old(s).improved,
            final(s).suits(self.expansion()),
            final(s)@ == self.judged(old(s)@, entries_of(cands@), scores@),
            better == self.judged_helps(old(s)@, entries_of(cands@), scores@),
    {
        reveal(Beam::judged);
        reveal(Beam::judged_helps);
        let ghost start = s@;
        let top = self.list_top(cands.len(), scores);
        let ghost entries = entries_of(cands@);
        let mut best: Option<(Scalar, usize, TreeResult)> = None;
        let ghost mut shown: Option<(Scalar, usize, Expanded)> = None;
        let mut evals: usize = s.evals;
        let mut j: usize = 0;
        while j < top.len()
            invariant
                j <= top@.len(),
                self.ok(),
                forall|i: int| 0 <= i < cands@.len() ==> (#[trigger] cands@[i]).suits(self.expansion()),
                forall|i: int| 0 <= i < top@.len() ==> #[trigger] top@[i] < cands@.len(),
                entries == entries_of(cands@),
                (Refined { evals, best: shown }) == self.refine_to(
                    start.evals,
                    entries,
                    top@,
                    j as int,
                ),
                match best {
                    Some((sc, at, e)) => {
                        shown == Some((sc, at, e@)) && e.suits(self.expansion()) && at < cands@.len()
                    },
                    None => shown is None,
                },
            decreases top@.len() - j,
        {
            let at: usize = top[j];
            assert(cands@[at as int].suits(self.expansion()));
            assert(entries[at as int] == cands@[at as int].entries@);
            let e = self.expand(&cands[at]);
            evals = count_one(evals);
            let sc = rate(self.ar, self.opts.ops_penalty, &e);
            let replaces = match &best {
                Some((b, _, _)) => self.ar.lt(sc, *b),
                None => true,
            };
            if replaces {
                proof {
                    shown = Some((sc, at, e@));
                }
                best = Some((sc, at, e));
            }
            j += 1;
        }
        s.evals = evals;
        proof {
            self.refine_scored(start.evals, entries, top@, top@.len() as int);
            crate::planner::score::descends_not(*self.ar, start.best_score);
        }
        match best {
            Some((sc, at, e)) => {
                if is_better(self.ar, sc, s.best_score) {
                    let mut frontier: Vec<Choices> = Vec::new();
                    let width: usize = if self.opts.beam_width < 1 {
                        0
                    } else {
                        self.opts.beam_width - 1
                    };
                    frontier.push(cands[at].clone());
                    let ghost mut rest: Seq<usize> = Seq::empty();
                    let mut j: usize = 0;
                    while j < top.len()
                        invariant
                            j <= top@.len(),
                            forall|i: int|
                                0 <= i < cands@.len() ==> (#[trigger] cands@[i]).suits(self.expansion()),
                            forall|i: int| 0 <= i < top@.len() ==> #[trigger] top@[i] < cands@.len(),
                            at < cands@.len(),
                            entries == entries_of(cands@),
                            forall|i: int|
                                0 <= i < frontier@.len() ==> (#[trigger] frontier@[i]).suits(self.expansion()),
                            rest == first_of(others_to(top@, at, j as int), width as int),
                            entries_of(frontier@) == seq![entries[at as int]] + rest.map_values(
                                |i: usize| entries[i as int],
                            ),
                        decreases top@.len() - j,
                    {
                        let i: usize = top[j];
                        let ghost before = others_to(top@, at, j as int);
                        if i != at && frontier.len() <= width {
                            assert(entries_of(frontier@).len() == 1 + rest.len());
                            let ghost had = entries_of(frontier@);
                            assert(cands@[i as int].suits(self.expansion()));
                            frontier.push(cands[i].clone());
                            proof {
                                let next = rest.push(i);
                                assert(next =~= first_of(before.push(i), width as int));
                                assert(entries_of(frontier@) =~= had.push(entries[i as int]));
                                assert(entries_of(frontier@) =~= seq![entries[at as int]]
                                    + next.map_values(|i: usize| entries[i as int]));
                                rest = next;
                            }
                        } else {
                            assert(entries_of(frontier@).len() == 1 + rest.len());
                            assert(first_of(before, width as int) =~= first_of(
                                others_to(top@, at, j + 1),
                                width as int,
                            ));
                        }
                        j += 1;
                    }
                    s.best = e;
                    s.best_score = sc;
                    s.improved = true;
                    s.frontier = frontier;
                    proof {
                        crate::planner::score::descends_further(*self.ar, start.best_score, start.best_score, sc);
                    }
                    return true;
                }
                false
            },
            None => false,
        }
    }
}

/// The note on what an evaluator did.
pub open spec fn evaluator_note(name: Seq<char>, given: nat, evals: usize) -> Seq<char> {
    "批量评估器 "@ + name + "：粗筛 "@ + crate::text::decimal(given) + " 个候选，CPU 精评 "@
        + crate::text::decimal(evals as nat) + " 个"@
}

/// The note on what a search did.
pub open spec fn search_note(s: Search) -> Seq<char> {
    "Beam 局部搜索："@ + crate::text::decimal(s.rounds as nat) + " 轮，评估 "@
        + crate::text::decimal(s.evals as nat) + " 个候选"@ + if s.improved {
        Seq::<char>::empty()
    } else {
        "（贪心基线已是最优）"@
    }
}

/// A count, or the greatest 64-bit number where the count is greater.
pub open spec fn shown_count(n: nat) -> nat {
    if n > u64::MAX {
        u64::MAX as nat
    } else {
        n
    }
}

fn note_evaluator(name: &str, given: u64, evals: usize) -> (r: String)
    ensures
        r@ == evaluator_note(name@, given as nat, evals),
{
    let a = joined("批量评估器 ", name);
    let b = joined(a.as_str(), "：粗筛 ");
    let c = joined(b.as_str(), decimal_string(given).as_str());
    let d = joined(c.as_str(), " 个候选，CPU 精评 ");
    let e = joined(d.as_str(), decimal_string(evals as u64).as_str());
    joined(e.as_str(), " 个")
}

fn note_search(s: &Searching) -> (r: String)
    ensures
        r@ == search_note(s@),
{
    let a = joined("Beam 局部搜索：", decimal_string(s.rounds as u64).as_str());
    let b = joined(a.as_str(), " 轮，评估 ");
    let c = joined(b.as_str(), decimal_string(s.evals as u64).as_str());
    let d = joined(c.as_str(), " 个候选");
    if s.improved {
        assert(d@ =~= search_note(s@));
        d
    } else {
        joined(d.as_str(), "（贪心基线已是最优）")
    }
}

/// A note that may be missing, as a list.
pub open spec fn note_list(text: Option<Seq<char>>) -> Seq<Seq<char>> {
    match text {
        Some(t) => seq![t],
        None => Seq::empty(),
    }
}

impl<'a, A: Arithmetic> Beam<'a, A> {
    /// The plan of a finished search; `extra` are notes on the evaluator.
    pub open spec fn plans(self, s: Search, extra: Seq<Seq<char>>, plan: Plan) -> bool {
        &&& (Assembly { ar: self.ar, g: self.g, an: self.an, alts: None }).assembles(
            self.req.target,
            self.req.rate_per_min,
            "beam"@,
            s.best.ops,
            s.best.raw,
            s.best.byproducts,
            (s.best.notes + extra).push(search_note(s)).push(crate::planner::tree::gt_note()),
            plan,
        )
        &&& plan.metrics == PlanMetrics::none_spec(self.ar.ratio_spec(0, 1))
        &&& plan.elapsed_ms == self.ar.ratio_spec(0, 1)
    }

    /// A state that the search can come to: its best score is the score of its
    /// result, and is that of the start or was reached by getting better step by
    /// step. Its recipes are allowed.
    pub open spec fn no_worse(self, s: Search) -> bool {
        &&& self.expansion().lawful(self.start().best)
        &&& self.expansion().lawful(s.best)
        &&& self.honest(s)
        &&& crate::planner::score::descends(*self.ar, self.start().best_score, s.best_score)
        &&& !s.improved ==> s.best == self.start().best
    }

    fn finish(&self, s: Searching, extra: Option<String>) -> (plan: Plan)
        requires
            self.ok(),
            s.suits(self.expansion()),
        ensures
            self.plans(s@, note_list(crate::graph::text_of(extra)), plan),
    {
        let ghost shown = s@;
        let closing = note_search(&s);
        let mut notes = s.best.notes;
        let ghost mut expected = crate::intern::texts(notes@);
        let ghost given = note_list(crate::graph::text_of(extra));
        if let Some(text) = extra {
            notes.push(text);
        }
        proof {
            assert(crate::intern::texts(notes@) =~= expected + given);
            expected = (expected + given).push(closing@).push(crate::planner::tree::gt_note());
        }
        notes.push(closing);
        notes.push("原版配方无 GT 时长/耗电数据，机器数与 EU 仅统计 GT 配方".to_owned());
        assert(crate::intern::texts(notes@) =~= expected);
        let zero = self.ar.ratio(0, 1);
        let assembly = Assembly { ar: self.ar, g: self.g, an: self.an, alts: None };
        assembly.assemble(
            self.req.target,
            self.req.rate_per_min,
            "beam",
            &s.best.ops,
            &s.best.raw,
            &s.best.byproducts,
            PlanMetrics::none(zero),
            notes,
            zero,
        )
    }
}

/// Plans by a beam search that samples. The plan is never worse than the one
/// without a search.
pub fn plan_beam<A: Arithmetic>(
    ar: &A,
    g: &KnowledgeGraph,
    an: &Analysis,
    target: MaterialId,
    rate_per_min: Scalar,
    opts: &BeamOptions,
) -> (plan: Plan)
    requires
        an.fits(*ar, *g),
        target < g.m_count(),
    ensures
        ({
            let b = Beam { ar, g, an, req: request(target, rate_per_min, *opts), opts };
            b.plans(b.sampling(), Seq::empty(), plan) && b.no_worse(b.sampling())
        }),
{
    let req = PlanRequest { target, rate_per_min, max_ops: 200_000, max_tier: opts.max_tier };
    let b = Beam { ar, g, an, req, opts };
    let mut s = b.begin();
    b.sample_all(&mut s);
    b.finish(s, None)
}

impl<'a, A: Arithmetic> Beam<'a, A> {
    /// The rounds of batch evaluation. Returns how many candidates the evaluator
    /// was given, and what it answered.
    fn batch_all<E: BatchEvaluator>(
        &self,
        s: &mut Searching,
        evaluator: &E,
        Ghost(before): Ghost<E>,
        Ghost(plan): Ghost<Choices>,
    ) -> (r: (u64, Ghost<Seq<Seq<Scalar>>>))
        requires
            self.ok(),
            old(s).suits(self.expansion()),
            evaluator.prepared_from(
                &before,
                self.g,
                self.an,
                self.req.target,
                self.req.rate_per_min,
                &plan,
            ),
        ensures
            self.honest(old(s)@) ==> self.honest(final(s)@),
            crate::planner::score::descends(*self.ar, old(s).best_score, final(s).best_score),
            !final(s).improved ==> final(s).best == old(s).best && !old(s).improved,
            final(s).suits(self.expansion()),
            self.batch_run(old(s)@, r.1@, final(s)@),
            forall|j: int|
                0 <= j < r.1@.len() ==> #[trigger] self.answered(*evaluator, old(s)@, r.1@, j),
            r.0 == shown_count(self.given_to(old(s)@, r.1@, r.1@.len() as int)),
    {
        let ghost start = s@;
        let ghost mut answers: Seq<Seq<Scalar>> = Seq::empty();
        let mut given: u64 = 0;
        let mut left: usize = self.opts.max_iterations;
        let ghost from = *s;
        proof {
            crate::planner::score::descends_not(*self.ar, start.best_score);
            self.course_starts(start);
            self.course_ends(start, answers, s@);
        }
        while left > 0
            invariant_except_break
                left + answers.len() == self.opts.max_iterations,
                self.on_course(start, answers, s@),
                left == 0 ==> self.batch_run(start, answers, s@),
            invariant
                self.ok(),
                s.suits(self.expansion()),
                given == shown_count(self.given_to(start, answers, answers.len() as int)),
                self.honest(from@) ==> self.honest(s@),
                crate::planner::score::descends(*self.ar, from.best_score, s.best_score),
                !s.improved ==> s.best == from.best && !from.improved,
                evaluator.prepared_from(
                    &before,
                    self.g,
                    self.an,
                    self.req.target,
                    self.req.rate_per_min,
                    &plan,
                ),
                forall|j: int|
                    0 <= j < answers.len() ==> #[trigger] self.answered(
                        *evaluator,
                        start,
                        answers,
                        j,
                    ),
            ensures
                self.batch_run(start, answers, s@),
            decreases left,
        {
            let ghost before = s@;
            let cands = self.next_batch(s);
            assert(entries_of(cands@).len() == cands@.len());
            if cands.len() == 0 {
                proof {
                    self.course_ends(start, answers, before);
                }
                break;
            }
            let scores = evaluator.evaluate(&cands);
            assert(evaluates(*evaluator, cands, scores));
            let count: u64 = cands.len() as u64;
            given = if given > u64::MAX - count {
                u64::MAX
            } else {
                given + count
            };
            let better = self.judge(s, &cands, &scores);
            proof {
                self.course_goes_on(start, answers, before, scores@);
                crate::planner::score::descends_on(*self.ar, from.best_score, before.best_score, s.best_score);
                let next = answers.push(scores@);
                assert forall|j: int| 0 <= j < next.len() implies #[trigger] self.answered(
                    *evaluator,
                    start,
                    next,
                    j,
                ) by {
                    if j < answers.len() {
                        assert(self.answered(*evaluator, start, answers, j));
                        self.still_answered(*evaluator, start, answers, scores@, j);
                    } else {
                        self.more_answers(start, answers, scores@, j);
                        assert(self.batch_to(start, answers, j) == before) by {
                            reveal(Beam::on_course);
                        }
                        assert(evaluates(*evaluator, cands, scores));
                    }
                }
                answers = next;
            }
            if !better {
                break;
            }
            left -= 1;
            proof {
                self.course_ends(start, answers, s@);
            }
        }
        (given, Ghost(answers))
    }

    /// The better of two searches, with the efforts of both.
    pub open spec fn better_of(self, a: Search, b: Search) -> Search {
        Search {
            evals: crate::list::capped(a.evals, b.evals),
            rounds: crate::list::capped(a.rounds, b.rounds),
            improved: a.improved || b.improved,
            ..if self.ar.lt_spec(b.best_score, a.best_score) {
                b
            } else {
                a
            }
        }
    }

    fn keep_better(&self, a: Searching, b: Searching) -> (r: Searching)
        requires
            a.suits(self.expansion()),
            b.suits(self.expansion()),
        ensures
            r@ == self.better_of(a@, b@),
            r.suits(self.expansion()),
    {
        let evals: usize = sum_capped(a.evals, b.evals);
        let rounds: usize = sum_capped(a.rounds, b.rounds);
        let improved = a.improved || b.improved;
        let mut r = if self.ar.lt(b.best_score, a.best_score) {
            b
        } else {
            a
        };
        r.evals = evals;
        r.rounds = rounds;
        r.improved = improved;
        r
    }

    /// What sampling alone leads to.
    pub open spec fn sampling(self) -> Search {
        self.sampled_times(self.start(), self.opts.max_iterations as nat)
    }

    /// The end of a search with an evaluator whose rounds led to `s`: these go on
    /// with sampling, and are held against sampling alone.
    pub open spec fn closed_from(self, s: Search) -> Search {
        self.better_of(
            self.sampled_times(s, self.opts.max_iterations as nat),
            self.sampling(),
        )
    }

    /// The score of the state is that of what sampling alone leads to, or sampling
    /// alone leads to nothing less.
    pub open spec fn no_worse_than_sampling(self, s: Search) -> bool {
        s.best_score == self.sampling().best_score || !self.ar.lt_spec(
            self.sampling().best_score,
            s.best_score,
        )
    }

    /// The evaluator is `before`, once it was told the plan that the search starts
    /// from, and nothing else.
    pub open spec fn prepares<E: BatchEvaluator>(self, before: E, ev: E) -> bool {
        exists|plan: Choices| #[trigger]
            ev.prepared_from(
                &before,
                self.g,
                self.an,
                self.req.target,
                self.req.rate_per_min,
                &plan,
            ) && plan.entries@ == self.start().best.choices
    }

    /// The plan of a search with this evaluator, which was `before` until it was
    /// told the start, has this name and answers the batches like this.
    pub open spec fn plans_with<E: BatchEvaluator>(
        self,
        before: E,
        ev: E,
        answers: Seq<Seq<Scalar>>,
        name: String,
        plan: Plan,
    ) -> bool {
        &&& self.prepares(before, ev)
        &&& is_called(ev, name)
        &&& forall|j: int|
            0 <= j < answers.len() ==> #[trigger] self.answered(ev, self.start(), answers, j)
        &&& exists|s: Search| #[trigger]
            self.batch_run(self.start(), answers, s) && {
                let end = self.closed_from(s);
                let given = self.given_to(self.start(), answers, answers.len() as int);
                self.no_worse(end) && self.no_worse_than_sampling(end) && self.plans(
                    end,
                    seq![evaluator_note(name@, shown_count(given), end.evals)],
                    plan,
                )
            }
    }
}

/// Plans by a beam search. An evaluator is told the start, once, judges all candidates
/// roughly in batches, and the best of them are expanded. Sampling follows, from
/// where that led and from the start, and the better result is kept: the plan is
/// never worse than the one of sampling alone, nor than the one without a search.
pub fn plan_beam_with_evaluator<A: Arithmetic, E: BatchEvaluator>(
    ar: &A,
    g: &KnowledgeGraph,
    an: &Analysis,
    target: MaterialId,
    rate_per_min: Scalar,
    opts: &BeamOptions,
    evaluator: Option<&mut E>,
) -> (plan: Plan)
    requires
        an.fits(*ar, *g),
        target < g.m_count(),
    ensures
        ({
            let b = Beam { ar, g, an, req: request(target, rate_per_min, *opts), opts };
            match evaluator {
                None => b.plans(b.sampling(), Seq::empty(), plan) && b.no_worse(b.sampling()),
                Some(ev) => exists|answers: Seq<Seq<Scalar>>, name: String| #[trigger]
                    b.plans_with(*ev, *final(ev), answers, name, plan),
            }
        }),
{
    match evaluator {
        None => plan_beam(ar, g, an, target, rate_per_min, opts),
        Some(ev) => {
            let req = PlanRequest {
                target,
                rate_per_min,
                max_ops: 200_000,
                max_tier: opts.max_tier,
            };
            let b = Beam { ar, g, an, req, opts };
            let mut s = b.begin();
            let ghost told = s.best.choices;
            let ghost before = *ev;
            ev.prepare(g, an, target, rate_per_min, &s.best.choices);
            let name = ev.name();
            let ghost asked = *ev;
            assert(is_called(asked, name));
            let (given, Ghost(answers)) = b.batch_all(&mut s, ev, Ghost(before), Ghost(told));
            let ghost reached = s@;
            b.sample_all(&mut s);
            proof {
                crate::planner::score::descends_on(*ar, b.start().best_score, reached.best_score, s.best_score);
            }
            let mut alone = b.begin();
            b.sample_all(&mut alone);
            let s = b.keep_better(s, alone);
            let text = note_evaluator(name.as_str(), given, s.evals);
            let plan = b.finish(s, Some(text));
            assert(b.batch_run(b.start(), answers, reached));
            assert(b.prepares(before, asked));
            assert(b.plans_with(before, asked, answers, name, plan));
            plan
        },
    }
}

} // verus!

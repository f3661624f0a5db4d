//! Which assignments the searches look at, and what they find there.
use vstd::prelude::*;

use crate::analysis::Analysis;
use crate::choices::with_choice;
use crate::graph::KnowledgeGraph;
use crate::model::{MaterialId, RecipeId};
use crate::planner::beam::{
    alternatives, hash_of, priced_to, price_order, score_order, Beam, Gathered, Round, Search,
};
use crate::planner::score::{better, score_of};
use crate::planner::tree::Expanded;
use crate::program::total;
use crate::scalar::{Arithmetic, Scalar};

verus! {

/// What one of `m` costs where the recipe `x` makes it.
pub open spec fn made_at<A: Arithmetic>(
    ar: A,
    g: KnowledgeGraph,
    an: Analysis,
    m: MaterialId,
    x: RecipeId,
    q: u64,
) -> Scalar {
    ar.over_spec(
        crate::util::recipe_cost_spec(
            ar,
            g,
            an.cost.unit_cost@,
            Some(an.cost.cyclic@),
            g.recipes@[x as int],
        ),
        crate::util::mat_norm_spec(ar, g, m, q),
    )
}

/// The recipe `x`, which is not the current one, can make `m`, `q` of it in an
/// operation: it can be planned with, is of an allowed tier, takes something, is not
/// dominated, and is within reach.
pub open spec fn stands_in<A: Arithmetic>(
    ar: A,
    g: KnowledgeGraph,
    an: Analysis,
    m: MaterialId,
    current: Option<RecipeId>,
    max_tier: Option<u8>,
    x: RecipeId,
    q: u64,
) -> bool {
    let r = g.recipes@[x as int];
    &&& x < g.r_count()
    &&& g.produces(x as int, m)
    &&& crate::util::qty_in(r.outputs@, m) == Some(q)
    &&& current != Some(x)
    &&& g.plannable@[x as int]
    &&& max_tier matches Some(limit) ==> (r.gt matches Some(gt) ==> (gt.tier_index matches Some(t)
        ==> t <= limit))
    &&& r.inputs@.len() > 0
    &&& !an.dominated_for@[x as int]@.contains(m)
    &&& ar.finite_spec(
        crate::util::recipe_cost_spec(ar, g, an.cost.unit_cost@, Some(an.cost.cyclic@), r),
    )
    &&& !ar.le_spec(crate::util::mat_norm_spec(ar, g, m, q), ar.ratio_spec(0, 1))
}

proof fn priced_holds<A: Arithmetic>(
    ar: A,
    g: KnowledgeGraph,
    an: Analysis,
    m: MaterialId,
    current: Option<RecipeId>,
    max_tier: Option<u8>,
    x: RecipeId,
    q: u64,
    k: int,
    i: int,
) -> (at: int)
    requires
        stands_in(ar, g, an, m, current, max_tier, x, q),
        0 <= k < i <= g.producers@[m as int]@.len(),
        g.producers@[m as int]@[k] == x,
    ensures
        0 <= at < priced_to(ar, g, an, m, current, max_tier, i).len(),
        priced_to(ar, g, an, m, current, max_tier, i)[at] == (x, made_at(ar, g, an, m, x, q)),
    decreases i,
{
    if k < i - 1 {
        priced_holds(ar, g, an, m, current, max_tier, x, q, k, i - 1)
    } else {
        priced_to(ar, g, an, m, current, max_tier, i - 1).len() as int
    }
}

proof fn priced_stand_in<A: Arithmetic>(
    ar: A,
    g: KnowledgeGraph,
    an: Analysis,
    m: MaterialId,
    current: Option<RecipeId>,
    max_tier: Option<u8>,
    i: int,
)
    requires
        g.wf(),
        m < g.m_count(),
        0 <= i <= g.producers@[m as int]@.len(),
    ensures
        ({
            let all = priced_to(ar, g, an, m, current, max_tier, i);
            &&& all.len() <= i
            &&& forall|k: int|
                0 <= k < all.len() ==> priced_right(ar, g, an, m, current, max_tier, #[trigger] all[k])
            &&& forall|k: int|
                #![trigger all[k]]
                0 <= k < all.len() ==> exists|n: int|
                    0 <= n < i && #[trigger] g.producers@[m as int]@[n] == all[k].0
            &&& forall|a: int, b: int|
                0 <= a < b < all.len() ==> (#[trigger] all[a]).0 < (#[trigger] all[b]).0
        }),
    decreases i,
{
    if i > 0 {
        priced_stand_in(ar, g, an, m, current, max_tier, i - 1);
        let rid = g.producers@[m as int]@[i - 1];
        let p = |r: int| g.produces(r, m as int as u32);
        assert(crate::graph::lists(g.producers@[m as int]@, g.r_count(), p));
        assert(p(rid as int));
        let rest = priced_to(ar, g, an, m, current, max_tier, i - 1);
        let all = priced_to(ar, g, an, m, current, max_tier, i);
        if all.len() > rest.len() {
            let q = crate::util::qty_in(g.recipes@[rid as int].outputs@, m)->0;
            assert(stands_in(ar, g, an, m, current, max_tier, rid, q));
            let e = all[rest.len() as int];
            assert(e == (rid, made_at(ar, g, an, m, rid, q)));
            assert(stands_in(ar, g, an, m, current, max_tier, e.0, q));
            assert(priced_right(ar, g, an, m, current, max_tier, e));
        }
    }
}

/// A recipe that stands in, with what it makes one at.
pub open spec fn priced_right<A: Arithmetic>(
    ar: A,
    g: KnowledgeGraph,
    an: Analysis,
    m: MaterialId,
    current: Option<RecipeId>,
    max_tier: Option<u8>,
    e: (RecipeId, Scalar),
) -> bool {
    exists|q: u64|
        #[trigger] stands_in(ar, g, an, m, current, max_tier, e.0, q) && e.1 == made_at(
            ar,
            g,
            an,
            m,
            e.0,
            q,
        )
}

/// The other recipes for a material, with what they make one at.
spec fn ranking<A: Arithmetic>(
    ar: A,
    g: KnowledgeGraph,
    an: Analysis,
    m: MaterialId,
    current: Option<RecipeId>,
    max_tier: Option<u8>,
) -> Seq<(RecipeId, Scalar)> {
    let priced = priced_to(
        ar,
        g,
        an,
        m,
        current,
        max_tier,
        g.producers@[m as int]@.len() as int,
    );
    crate::order::sorted(priced, price_order(ar, priced))
}

proof fn ranking_ranks<A: Arithmetic>(
    ar: A,
    g: KnowledgeGraph,
    an: Analysis,
    m: MaterialId,
    current: Option<RecipeId>,
    max_tier: Option<u8>,
)
    requires
        g.wf(),
        m < g.m_count(),
    ensures
        ({
            let n = g.producers@[m as int]@.len() as int;
            let priced = priced_to(ar, g, an, m, current, max_tier, n);
            let all = ranking(ar, g, an, m, current, max_tier);
            &&& all.len() == priced.len()
            &&& forall|k: int| 0 <= k < priced.len() ==> all.contains(#[trigger] priced[k])
            &&& forall|k: int| 0 <= k < all.len() ==> priced.contains(#[trigger] all[k])
            &&& forall|a: int, b: int|
                0 <= a < b < all.len() ==> !ar.total_before_spec(
                    (#[trigger] all[b]).1,
                    (#[trigger] all[a]).1,
                ) && all[a].0 != all[b].0
        }),
{
    let n = g.producers@[m as int]@.len() as int;
    let priced = priced_to(ar, g, an, m, current, max_tier, n);
    let before = price_order(ar, priced);
    priced_stand_in(ar, g, an, m, current, max_tier, n);
    crate::planner::beam::price_order_orders(ar, priced);
    assert(n == g.producers@[m as int].len());
    crate::order::stable_order_exists(before, priced.len() as int);
    let p = choose|p: Seq<usize>| #[trigger]
        crate::order::stable_order(before, priced.len() as int, p);
    let all = ranking(ar, g, an, m, current, max_tier);
    assert(crate::order::sorted_by(priced, before, all)) by {
        let p = choose|p: Seq<usize>| #[trigger]
            crate::order::stable_order(before, priced.len() as int, p);
        assert(all == crate::order::listed(priced, p));
    }
    crate::order::sorted_by_permutes(priced, before, all);
    ar.total_before_orders();
    assert forall|a: int, b: int| 0 <= a < b < all.len() implies !ar.total_before_spec(
        (#[trigger] all[b]).1,
        (#[trigger] all[a]).1,
    ) && all[a].0 != all[b].0 by {
        assert(crate::order::comes_ahead(priced, before, all[a], all[b]));
        let (x, y) = choose|x: int, y: int|
            0 <= x < priced.len() && 0 <= y < priced.len() && #[trigger] priced[x] == all[a]
                && #[trigger] priced[y] == all[b] && crate::order::ahead(before, x, y);
        assert(before(x, y) || (!before(y, x) && x < y));
        if x == y {
            assert(!before(x, x));
        } else if x < y {
            assert(priced[x].0 < priced[y].0);
        } else {
            assert(priced[y].0 < priced[x].0);
        }
        if ar.total_before_spec(all[b].1, all[a].1) && ar.total_before_spec(all[a].1, all[b].1) {
            assert(ar.total_before_spec(all[a].1, all[a].1));
        }
    }
}

/// Every recipe that stands in for the current one is among the other recipes,
/// unless those are as many as the limit allows and none of them is dearer.
pub proof fn stand_ins_are_found<A: Arithmetic>(
    ar: A,
    g: KnowledgeGraph,
    an: Analysis,
    m: MaterialId,
    current: Option<RecipeId>,
    limit: usize,
    max_tier: Option<u8>,
    x: RecipeId,
    q: u64,
)
    requires
        g.wf(),
        m < g.m_count(),
        stands_in(ar, g, an, m, current, max_tier, x, q),
    ensures
        ({
            let all = alternatives(ar, g, an, m, current, limit, max_tier);
            all.contains(x) || (all.len() == limit && forall|i: int|
                0 <= i < all.len() ==> no_dearer(
                    ar,
                    g,
                    an,
                    m,
                    #[trigger] all[i],
                    made_at(ar, g, an, m, x, q),
                ))
        }),
{
    let n = g.producers@[m as int]@.len() as int;
    let p = |r: int| g.produces(r, m as int as u32);
    assert(crate::graph::lists(g.producers@[m as int]@, g.r_count(), p));
    assert(p(x as int));
    assert(g.producers@[m as int]@.contains(x as int as u32));
    let k = choose|k: int| 0 <= k < n && g.producers@[m as int]@[k] == x;
    let at = priced_holds(ar, g, an, m, current, max_tier, x, q, k, n);
    ranking_ranks(ar, g, an, m, current, max_tier);
    priced_stand_in(ar, g, an, m, current, max_tier, n);
    let ranked = ranking(ar, g, an, m, current, max_tier);
    let priced = priced_to(ar, g, an, m, current, max_tier, n);
    assert(ranked.contains(priced[at]));
    let j = choose|j: int| 0 <= j < ranked.len() && ranked[j] == priced[at];
    let all = alternatives(ar, g, an, m, current, limit, max_tier);
    assert forall|i: int| 0 <= i < all.len() implies #[trigger] all[i] == ranked[i].0 by {}
    if j < limit {
        assert(all[j] == x);
    } else {
        assert forall|i: int| 0 <= i < all.len() implies no_dearer(
            ar,
            g,
            an,
            m,
            #[trigger] all[i],
            made_at(ar, g, an, m, x, q),
        ) by {
            assert(priced.contains(ranked[i]));
            let c = choose|c: int| 0 <= c < priced.len() && priced[c] == ranked[i];
            assert(priced_right(ar, g, an, m, current, max_tier, priced[c]));
            let z = choose|z: u64|
                #[trigger] stands_in(ar, g, an, m, current, max_tier, priced[c].0, z)
                    && priced[c].1 == made_at(ar, g, an, m, priced[c].0, z);
            assert(!ar.total_before_spec(ranked[j].1, ranked[i].1));
            assert(crate::util::qty_in(g.recipes@[all[i] as int].outputs@, m) == Some(z));
        }
    }
}

/// The recipe makes `m` and stands in for the current one.
pub open spec fn can_stand_in<A: Arithmetic>(
    ar: A,
    g: KnowledgeGraph,
    an: Analysis,
    m: MaterialId,
    current: Option<RecipeId>,
    max_tier: Option<u8>,
    x: RecipeId,
) -> bool {
    exists|q: u64| #[trigger] stands_in(ar, g, an, m, current, max_tier, x, q)
}

/// The recipe makes one of `m` at no more than the price.
pub open spec fn no_dearer<A: Arithmetic>(
    ar: A,
    g: KnowledgeGraph,
    an: Analysis,
    m: MaterialId,
    x: RecipeId,
    price: Scalar,
) -> bool {
    crate::util::qty_in(g.recipes@[x as int].outputs@, m) matches Some(q)
        && !ar.total_before_spec(price, made_at(ar, g, an, m, x, q))
}

/// The other recipes all stand in for the current one, each is listed once, and
/// none comes after a dearer one. There are no more than the limit allows.
pub proof fn others_stand_in<A: Arithmetic>(
    ar: A,
    g: KnowledgeGraph,
    an: Analysis,
    m: MaterialId,
    current: Option<RecipeId>,
    limit: usize,
    max_tier: Option<u8>,
)
    requires
        g.wf(),
        m < g.m_count(),
    ensures
        ({
            let all = alternatives(ar, g, an, m, current, limit, max_tier);
            &&& all.len() <= limit
            &&& all.no_duplicates()
            &&& forall|i: int|
                0 <= i < all.len() ==> can_stand_in(ar, g, an, m, current, max_tier, #[trigger] all[i])
            &&& forall|i: int, j: int, q: u64|
                0 <= i < j < all.len() && #[trigger] stands_in(
                    ar,
                    g,
                    an,
                    m,
                    current,
                    max_tier,
                    all[j],
                    q,
                ) ==> no_dearer(ar, g, an, m, #[trigger] all[i], made_at(ar, g, an, m, all[j], q))
        }),
{
    let n = g.producers@[m as int]@.len() as int;
    ranking_ranks(ar, g, an, m, current, max_tier);
    priced_stand_in(ar, g, an, m, current, max_tier, n);
    let ranked = ranking(ar, g, an, m, current, max_tier);
    let priced = priced_to(ar, g, an, m, current, max_tier, n);
    let all = alternatives(ar, g, an, m, current, limit, max_tier);
    assert forall|i: int| 0 <= i < all.len() implies #[trigger] all[i] == ranked[i].0 by {}
    assert forall|i: int| 0 <= i < ranked.len() implies priced_right(
        ar,
        g,
        an,
        m,
        current,
        max_tier,
        #[trigger] ranked[i],
    ) by {
        assert(priced.contains(ranked[i]));
        let c = choose|c: int| 0 <= c < priced.len() && priced[c] == ranked[i];
        assert(priced_right(ar, g, an, m, current, max_tier, priced[c]));
    }
    assert forall|i: int| 0 <= i < all.len() implies can_stand_in(
        ar,
        g,
        an,
        m,
        current,
        max_tier,
        #[trigger] all[i],
    ) by {
        assert(priced_right(ar, g, an, m, current, max_tier, ranked[i]));
        let q = choose|q: u64|
            #[trigger] stands_in(ar, g, an, m, current, max_tier, ranked[i].0, q) && ranked[i].1
                == made_at(ar, g, an, m, ranked[i].0, q);
        assert(stands_in(ar, g, an, m, current, max_tier, all[i], q));
    }
    assert forall|i: int, j: int| 0 <= i < j < all.len() implies all[i] != all[j] by {
        assert(ranked[i].0 != ranked[j].0);
    }
    assert forall|i: int, j: int, q: u64|
        0 <= i < j < all.len() && #[trigger] stands_in(
            ar,
            g,
            an,
            m,
            current,
            max_tier,
            all[j],
            q,
        ) implies no_dearer(ar, g, an, m, #[trigger] all[i], made_at(ar, g, an, m, all[j], q)) by {
        assert(priced_right(ar, g, an, m, current, max_tier, ranked[i]));
        assert(priced_right(ar, g, an, m, current, max_tier, ranked[j]));
        assert(!ar.total_before_spec(ranked[j].1, ranked[i].1));
    }
}

/// Scores are compared as one expects: nothing is better than itself, what is better
/// than something better is better, what comes no later than something better is
/// better, and what is less comes before.
pub open spec fn ranks<A: Arithmetic>(ar: A) -> bool {
    &&& forall|a: Scalar| !#[trigger] better(ar, a, a)
    &&& forall|a: Scalar, b: Scalar, c: Scalar|
        #[trigger] better(ar, a, b) && #[trigger] better(ar, b, c) ==> better(ar, a, c)
    &&& forall|a: Scalar, b: Scalar, c: Scalar|
        #[trigger] better(ar, a, b) && !#[trigger] ar.total_before_spec(a, c) ==> better(ar, c, b)
    &&& forall|a: Scalar, b: Scalar| #[trigger]
        better(ar, a, b) ==> ar.total_before_spec(a, b)
    &&& forall|a: Scalar, b: Scalar| #[trigger]
        ar.lt_spec(a, b) <==> ar.total_before_spec(a, b)
}

/// Fixed-point scores are compared as one expects.
pub proof fn fixed_ranks()
    ensures
        ranks(crate::fixed::Fixed),
{
}

impl<'a, A: Arithmetic> Beam<'a, A> {
    /// Of an assignment with no more entries than are sampled, all are sampled.
    pub proof fn few_are_all_sampled(self, p: int, n: int)
        requires
            0 <= p < n <= self.opts.sample_per_state,
        ensures
            self.samples(p, n),
    {
        let k = self.opts.sample_per_state as int;
        assert(n / k <= 1) by (nonlinear_arith)
            requires
                0 < n <= k,
        ;
        assert(p % 1 == 0 && p / 1 == p);
    }

    /// As many entries are sampled as there are and as the options allow.
    pub proof fn as_many_are_sampled(self, n: nat)
        ensures
            total(
                n,
                |p: int|
                    if self.samples(p, n as int) {
                        1
                    } else {
                        0
                    },
            ) == if n < self.opts.sample_per_state {
                n as int
            } else {
                self.opts.sample_per_state as int
            },
    {
        let k = self.opts.sample_per_state as int;
        let each = n as int / (if k < 1 { 1 } else { k });
        let step = if each < 1 { 1 } else { each };
        self.sampled_below(n as int, n);
        if n < k {
            assert(n as int / k == 0) by (nonlinear_arith)
                requires
                    0 <= n < k,
            ;
            assert((n as int + step - 1) / step == n);
        } else if k >= 1 {
            let m = n as int;
            assert(m / k >= 1 && (m / k) * k <= m) by (nonlinear_arith)
                requires
                    m >= k,
                    k >= 1,
            ;
            assert((m + step - 1) / step >= k) by (nonlinear_arith)
                requires
                    step * k <= m,
                    step >= 1,
            ;
        } else {
            let m = n as int;
            assert((m + step - 1) / step >= 0) by (nonlinear_arith)
                requires
                    m >= 0,
                    step >= 1,
            ;
        }
    }

    /// Below `p` the multiples of the step are sampled, until there are enough.
    proof fn sampled_below(self, n: int, p: nat)
        requires
            n >= 0,
        ensures
            ({
                let k = self.opts.sample_per_state as int;
                let each = n / (if k < 1 { 1 } else { k });
                let step = if each < 1 { 1 } else { each };
                let c = (p as int + step - 1) / step;
                total(
                    p,
                    |p: int|
                        if self.samples(p, n) {
                            1
                        } else {
                            0
                        },
                ) == if c < k {
                    c
                } else {
                    k
                }
            }),
        decreases p,
    {
        let k = self.opts.sample_per_state as int;
        let each = n / (if k < 1 { 1 } else { k });
        let step = if each < 1 { 1 } else { each };
        let f = |p: int|
            if self.samples(p, n) {
                1int
            } else {
                0
            };
        if p == 0 {
            assert((step - 1) / step == 0) by (nonlinear_arith)
                requires
                    step >= 1,
            ;
        } else {
            self.sampled_below(n, (p - 1) as nat);
            crate::program::total_step(p, f);
            let q = p as int - 1;
            counts_up(q, step);
        }
    }
}

/// From one number to the next the quotient, rounded up, grows by one where the
/// number is a multiple, and then it was the quotient.
proof fn counts_up(q: int, step: int)
    requires
        q >= 0,
        step >= 1,
    ensures
        q % step == 0 ==> (q + step) / step == (q + step - 1) / step + 1 && (q + step - 1) / step
            == q / step,
        q % step != 0 ==> (q + step) / step == (q + step - 1) / step,
{
    let d = q / step;
    let r = q % step;
    assert(q == d * step + r && 0 <= r < step) by (nonlinear_arith)
        requires
            d == q / step,
            r == q % step,
            step >= 1,
    ;
    assert((q + step) / step == d + 1) by (nonlinear_arith)
        requires
            q == d * step + r,
            0 <= r < step,
    ;
    if r == 0 {
        assert((q + step - 1) / step == d) by (nonlinear_arith)
            requires
                q == d * step,
                step >= 1,
        ;
    } else {
        assert((q + step - 1) / step == d + 1) by (nonlinear_arith)
            requires
                q == d * step + r,
                1 <= r < step,
        ;
    }
}

impl<'a, A: Arithmetic> Beam<'a, A> {
    /// The plan that an assignment leads to.
    pub open spec fn leads_to(self, choices: Seq<(MaterialId, RecipeId)>) -> Expanded {
        self.expansion().expanded(choices)
    }

    /// What the plan scores that an assignment leads to.
    pub open spec fn scores(self, choices: Seq<(MaterialId, RecipeId)>) -> Scalar {
        score_of(*self.ar, self.opts.ops_penalty, self.leads_to(choices))
    }

    /// The number by which the plan is known that an assignment leads to.
    pub open spec fn known_by(self, choices: Seq<(MaterialId, RecipeId)>) -> u64 {
        hash_of(self.leads_to(choices).choices)
    }

    /// A plan is known by `h` that is not better than `bar`.
    pub open spec fn loses(self, h: u64, bar: Scalar) -> bool {
        exists|c: Seq<(MaterialId, RecipeId)>| #[trigger]
            self.known_by(c) == h && !better(*self.ar, self.scores(c), bar)
    }

    /// No plan that was looked at is better than the best.
    pub open spec fn nothing_better(self, s: Search) -> bool {
        forall|h: u64| #[trigger] s.seen.contains(h) ==> self.loses(h, s.best_score)
    }

    /// Plans that are known by one number score the same.
    pub open spec fn tells_apart(self) -> bool {
        forall|a: Seq<(MaterialId, RecipeId)>, b: Seq<(MaterialId, RecipeId)>|
            #[trigger] self.known_by(a) == #[trigger] self.known_by(b) ==> self.scores(a)
                == self.scores(b)
    }

    /// The candidate is the plan that an assignment leads to, and is known by `h`.
    spec fn stands_for(self, c: (Scalar, Expanded), h: u64) -> bool {
        exists|a: Seq<(MaterialId, RecipeId)>| #[trigger]
            self.known_by(a) == h && c == (self.scores(a), self.leads_to(a))
    }

    /// What a round has looked at was looked at before or is a candidate.
    spec fn tracks(self, seen: Set<u64>, r: Round) -> bool {
        &&& seen.subset_of(r.seen)
        &&& forall|h: u64| #[trigger]
            r.seen.contains(h) ==> seen.contains(h) || exists|i: int|
                0 <= i < r.cands.len() && self.stands_for(#[trigger] r.cands[i], h)
    }

    proof fn attempt_tracks(self, seen: Set<u64>, r: Round, choices: Seq<(MaterialId, RecipeId)>)
        requires
            self.tracks(seen, r),
        ensures
            self.tracks(seen, self.attempt(r, choices)),
            r.seen.subset_of(self.attempt(r, choices).seen),
            self.attempt(r, choices).seen.contains(self.known_by(choices)),
    {
        let n = self.attempt(r, choices);
        let k = self.known_by(choices);
        assert forall|h: u64| #[trigger] n.seen.contains(h) implies seen.contains(h)
            || exists|i: int|
            0 <= i < n.cands.len() && self.stands_for(#[trigger] n.cands[i], h) by {
            if r.seen.contains(h) {
                if !seen.contains(h) {
                    let i = choose|i: int|
                        0 <= i < r.cands.len() && self.stands_for(#[trigger] r.cands[i], h);
                    assert(n.cands[i] == r.cands[i]);
                }
            } else {
                assert(h == k);
                assert(self.known_by(choices) == h);
                let i = r.cands.len() as int;
                assert(n.cands[i] == (self.scores(choices), self.leads_to(choices)));
                assert(self.stands_for(n.cands[i], h));
            }
        }
    }

    proof fn alts_tracked(
        self,
        seen: Set<u64>,
        r: Round,
        choices: Seq<(MaterialId, RecipeId)>,
        p: int,
        a: int,
    )
        requires
            self.tracks(seen, r),
        ensures
            self.tracks(seen, self.attempt_alts(r, choices, p, a)),
            r.seen.subset_of(self.attempt_alts(r, choices, p, a).seen),
            forall|k: int|
                0 <= k < a ==> self.attempt_alts(r, choices, p, a).seen.contains(
                    self.known_by(
                        with_choice(choices, choices[p].0, #[trigger] self.tried(choices[p])[k]),
                    ),
                ),
        decreases a,
    {
        if a > 0 {
            self.alts_tracked(seen, r, choices, p, a - 1);
            self.attempt_tracks(
                seen,
                self.attempt_alts(r, choices, p, a - 1),
                with_choice(choices, choices[p].0, self.tried(choices[p])[a - 1]),
            );
        }
    }

    proof fn entries_tracked(
        self,
        seen: Set<u64>,
        r: Round,
        choices: Seq<(MaterialId, RecipeId)>,
        p: int,
    )
        requires
            self.tracks(seen, r),
            0 <= p <= choices.len(),
        ensures
            self.tracks(seen, self.attempt_entries(r, choices, p)),
            r.seen.subset_of(self.attempt_entries(r, choices, p).seen),
            forall|q: int, k: int|
                0 <= q < p && #[trigger] self.samples(q, choices.len() as int) && 0 <= k
                    < self.tried(choices[q]).len() ==> self.attempt_entries(
                    r,
                    choices,
                    p,
                ).seen.contains(
                    self.known_by(
                        with_choice(choices, choices[q].0, #[trigger] self.tried(choices[q])[k]),
                    ),
                ),
        decreases p,
    {
        if p > 0 {
            self.entries_tracked(seen, r, choices, p - 1);
            let before = self.attempt_entries(r, choices, p - 1);
            if self.samples(p - 1, choices.len() as int) {
                self.alts_tracked(
                    seen,
                    before,
                    choices,
                    p - 1,
                    self.tried(choices[p - 1]).len() as int,
                );
            }
        }
    }

    proof fn frontier_tracked(
        self,
        seen: Set<u64>,
        r: Round,
        frontier: Seq<Seq<(MaterialId, RecipeId)>>,
        f: int,
    )
        requires
            self.tracks(seen, r),
            0 <= f <= frontier.len(),
        ensures
            self.tracks(seen, self.attempt_frontier(r, frontier, f)),
            r.seen.subset_of(self.attempt_frontier(r, frontier, f).seen),
            forall|i: int, q: int, k: int|
                0 <= i < f && 0 <= q < frontier[i].len() && #[trigger] self.samples(
                    q,
                    frontier[i].len() as int,
                ) && 0 <= k < self.tried(frontier[i][q]).len() ==> self.attempt_frontier(
                    r,
                    frontier,
                    f,
                ).seen.contains(
                    self.known_by(
                        with_choice(
                            frontier[i],
                            frontier[i][q].0,
                            #[trigger] self.tried(frontier[i][q])[k],
                        ),
                    ),
                ),
        decreases f,
    {
        if f > 0 {
            self.frontier_tracked(seen, r, frontier, f - 1);
            self.entries_tracked(
                seen,
                self.attempt_frontier(r, frontier, f - 1),
                frontier[f - 1],
                frontier[f - 1].len() as int,
            );
        }
    }

    spec fn round(self, s: Search) -> Round {
        self.attempt_frontier(
            Round { seen: s.seen, evals: s.evals, cands: Seq::empty() },
            s.frontier,
            s.frontier.len() as int,
        )
    }

    /// A round tries, for every sampled entry of every assignment that it starts
    /// from, every other recipe.
    pub proof fn round_tries_changes(self, s: Search, f: int, p: int, a: int)
        requires
            0 <= f < s.frontier.len(),
            0 <= p < s.frontier[f].len(),
            self.samples(p, s.frontier[f].len() as int),
            0 <= a < self.tried(s.frontier[f][p]).len(),
        ensures
            self.sampled(s).seen.contains(
                self.known_by(
                    with_choice(s.frontier[f], s.frontier[f][p].0, self.tried(s.frontier[f][p])[a]),
                ),
            ),
    {
        let r = Round { seen: s.seen, evals: s.evals, cands: Seq::empty() };
        self.frontier_tracked(s.seen, r, s.frontier, s.frontier.len() as int);
    }

    /// What a round ranks first is what comes first of all its candidates.
    proof fn first_is_best(self, s: Search, i: int)
        requires
            0 <= i < self.round(s).cands.len() <= usize::MAX,
        ensures
            self.ranked(s).len() == self.round(s).cands.len(),
            !self.ar.total_before_spec(self.round(s).cands[i].0, self.ranked(s)[0].0),
    {
        let cands = self.round(s).cands;
        let before = score_order(*self.ar, cands);
        let n = cands.len() as int;
        self.ar.total_before_orders();
        assert(crate::order::orders(before, n));
        crate::order::stable_order_exists(before, n);
        let all = self.ranked(s);
        assert(crate::order::sorted_by(cands, before, all)) by {
            let p = choose|p: Seq<usize>| #[trigger] crate::order::stable_order(before, n, p);
            assert(all == crate::order::listed(cands, p));
        }
        crate::order::sorted_by_permutes(cands, before, all);
        assert(all.contains(cands[i]));
        let j = choose|j: int| 0 <= j < all.len() && all[j] == cands[i];
        if j > 0 {
            assert(crate::order::comes_ahead(cands, before, all[0], all[j]));
            let (x, y) = choose|x: int, y: int|
                0 <= x < n && 0 <= y < n && #[trigger] cands[x] == all[0] && #[trigger] cands[y]
                    == all[j] && crate::order::ahead(before, x, y);
            assert(before(x, y) || !before(y, x));
        }
    }

    /// A round that fits in memory.
    pub open spec fn round_fits(self, s: Search) -> bool {
        self.ranked(s).len() <= usize::MAX && self.attempt_frontier(
            Round { seen: s.seen, evals: s.evals, cands: Seq::empty() },
            s.frontier,
            s.frontier.len() as int,
        ).cands.len() <= usize::MAX
    }

    /// A round keeps it so that nothing that was looked at is better than the best.
    pub proof fn round_keeps_the_best(self, s: Search)
        requires
            ranks(*self.ar),
            self.round_fits(s),
            self.nothing_better(s),
        ensures
            self.nothing_better(self.sampled(s)),
    {
        let r0 = Round { seen: s.seen, evals: s.evals, cands: Seq::empty() };
        self.frontier_tracked(s.seen, r0, s.frontier, s.frontier.len() as int);
        let r = self.round(s);
        let t = self.sampled(s);
        assert forall|h: u64| #[trigger] t.seen.contains(h) implies self.loses(h, t.best_score) by {
            assert(r.seen.contains(h));
            if s.seen.contains(h) {
                assert(self.loses(h, s.best_score));
                let c = choose|c: Seq<(MaterialId, RecipeId)>| #[trigger]
                    self.known_by(c) == h && !better(*self.ar, self.scores(c), s.best_score);
                assert(!better(*self.ar, self.scores(c), t.best_score));
            } else {
                let i = choose|i: int|
                    0 <= i < r.cands.len() && self.stands_for(#[trigger] r.cands[i], h);
                let c = choose|c: Seq<(MaterialId, RecipeId)>| #[trigger]
                    self.known_by(c) == h && r.cands[i] == (self.scores(c), self.leads_to(c));
                self.first_is_best(s, i);
                assert(!better(*self.ar, self.scores(c), t.best_score));
            }
        }
    }

    /// At the start nothing that was looked at is better than the best, and the
    /// search starts from the best.
    pub proof fn start_is_best(self)
        requires
            ranks(*self.ar),
        ensures
            self.nothing_better(self.start()),
            self.start().frontier == seq![self.start().best.choices],
    {
        let s = self.start();
        let c = Seq::<(MaterialId, RecipeId)>::empty();
        assert(self.known_by(c) == hash_of(s.best.choices));
        assert(!better(*self.ar, self.scores(c), s.best_score));
    }

    /// A round goes on from the best, whether it found it or not.
    pub proof fn round_goes_on_from_the_best(self, s: Search)
        requires
            self.round_fits(s),
            s.frontier.len() > 0,
            s.frontier[0] == s.best.choices,
        ensures
            self.sampled(s).frontier.len() > 0,
            self.sampled(s).frontier[0] == self.sampled(s).best.choices,
    {
    }

    /// After a round no change of a sampled entry, to any of the other recipes, of an
    /// assignment that the round started from leads to a plan that is better than the
    /// best.
    pub proof fn no_change_is_better(self, s: Search, f: int, p: int, a: int)
        requires
            ranks(*self.ar),
            self.tells_apart(),
            self.round_fits(s),
            self.nothing_better(s),
            0 <= f < s.frontier.len(),
            0 <= p < s.frontier[f].len(),
            self.samples(p, s.frontier[f].len() as int),
            0 <= a < self.tried(s.frontier[f][p]).len(),
        ensures
            !better(
                *self.ar,
                self.scores(
                    with_choice(s.frontier[f], s.frontier[f][p].0, self.tried(s.frontier[f][p])[a]),
                ),
                self.sampled(s).best_score,
            ),
    {
        let choices = with_choice(
            s.frontier[f],
            s.frontier[f][p].0,
            self.tried(s.frontier[f][p])[a],
        );
        self.round_tries_changes(s, f, p, a);
        self.round_keeps_the_best(s);
        let t = self.sampled(s);
        assert(self.loses(self.known_by(choices), t.best_score));
        let c = choose|c: Seq<(MaterialId, RecipeId)>| #[trigger]
            self.known_by(c) == self.known_by(choices) && !better(
                *self.ar,
                self.scores(c),
                t.best_score,
            );
        assert(self.scores(c) == self.scores(choices));
    }

    /// A round that does not help ends the search at a peak: the best is as it was,
    /// and no change of a sampled entry of it, to any of the other recipes, leads to a
    /// plan that is better.
    pub proof fn search_ends_at_a_peak(self, s: Search, p: int, a: int)
        requires
            ranks(*self.ar),
            self.tells_apart(),
            self.round_fits(s),
            self.nothing_better(s),
            s.frontier.len() > 0,
            s.frontier[0] == s.best.choices,
            !self.sampling_helps(s),
            0 <= p < s.best.choices.len(),
            self.samples(p, s.best.choices.len() as int),
            0 <= a < self.tried(s.best.choices[p]).len(),
        ensures
            self.sampled_times(s, 1).best == s.best,
            !better(
                *self.ar,
                self.scores(
                    with_choice(
                        s.best.choices,
                        s.best.choices[p].0,
                        self.tried(s.best.choices[p])[a],
                    ),
                ),
                s.best_score,
            ),
    {
        self.no_change_is_better(s, 0, p, a);
    }
}

impl<'a, A: Arithmetic> Beam<'a, A> {
    /// What a batch has gathered was looked at before or is a candidate, and no two
    /// candidates are known by one number.
    spec fn gathers(self, seen: Set<u64>, t: Gathered) -> bool {
        &&& seen.subset_of(t.seen)
        &&& forall|h: u64| #[trigger]
            t.seen.contains(h) ==> seen.contains(h) || exists|i: int|
                0 <= i < t.cands.len() && hash_of(#[trigger] t.cands[i]) == h
        &&& forall|i: int|
            0 <= i < t.cands.len() ==> t.seen.contains(hash_of(#[trigger] t.cands[i]))
                && !seen.contains(hash_of(t.cands[i]))
        &&& forall|i: int, j: int|
            0 <= i < j < t.cands.len() ==> hash_of(#[trigger] t.cands[i]) != hash_of(
                #[trigger] t.cands[j],
            )
    }

    proof fn gather_gathers(self, seen: Set<u64>, t: Gathered, choices: Seq<(MaterialId, RecipeId)>)
        requires
            self.gathers(seen, t),
        ensures
            self.gathers(seen, self.gather(t, choices)),
            t.seen.subset_of(self.gather(t, choices).seen),
            self.gather(t, choices).seen.contains(hash_of(choices)),
    {
        let n = self.gather(t, choices);
        assert forall|h: u64| #[trigger] n.seen.contains(h) implies seen.contains(h)
            || exists|i: int| 0 <= i < n.cands.len() && hash_of(#[trigger] n.cands[i]) == h by {
            if t.seen.contains(h) {
                if !seen.contains(h) {
                    let i = choose|i: int|
                        0 <= i < t.cands.len() && hash_of(#[trigger] t.cands[i]) == h;
                    assert(n.cands[i] == t.cands[i]);
                }
            } else {
                assert(n.cands[t.cands.len() as int] == choices);
            }
        }
    }

    proof fn alts_gathered(
        self,
        seen: Set<u64>,
        t: Gathered,
        choices: Seq<(MaterialId, RecipeId)>,
        p: int,
        a: int,
    )
        requires
            self.gathers(seen, t),
        ensures
            self.gathers(seen, self.gather_alts(t, choices, p, a)),
            t.seen.subset_of(self.gather_alts(t, choices, p, a).seen),
            forall|k: int|
                0 <= k < a ==> self.gather_alts(t, choices, p, a).seen.contains(
                    hash_of(
                        with_choice(choices, choices[p].0, #[trigger] self.tried(choices[p])[k]),
                    ),
                ),
        decreases a,
    {
        if a > 0 {
            self.alts_gathered(seen, t, choices, p, a - 1);
            self.gather_gathers(
                seen,
                self.gather_alts(t, choices, p, a - 1),
                with_choice(choices, choices[p].0, self.tried(choices[p])[a - 1]),
            );
        }
    }

    proof fn entries_gathered(
        self,
        seen: Set<u64>,
        t: Gathered,
        choices: Seq<(MaterialId, RecipeId)>,
        p: int,
    )
        requires
            self.gathers(seen, t),
            0 <= p <= choices.len(),
        ensures
            self.gathers(seen, self.gather_entries(t, choices, p)),
            t.seen.subset_of(self.gather_entries(t, choices, p).seen),
            forall|q: int, k: int|
                0 <= q < p && 0 <= k < self.tried(choices[q]).len() ==> self.gather_entries(
                    t,
                    choices,
                    p,
                ).seen.contains(
                    hash_of(
                        with_choice(choices, choices[q].0, #[trigger] self.tried(choices[q])[k]),
                    ),
                ),
        decreases p,
    {
        if p > 0 {
            self.entries_gathered(seen, t, choices, p - 1);
            self.alts_gathered(
                seen,
                self.gather_entries(t, choices, p - 1),
                choices,
                p - 1,
                self.tried(choices[p - 1]).len() as int,
            );
        }
    }

    proof fn frontier_gathered(
        self,
        seen: Set<u64>,
        t: Gathered,
        frontier: Seq<Seq<(MaterialId, RecipeId)>>,
        f: int,
    )
        requires
            self.gathers(seen, t),
            0 <= f <= frontier.len(),
        ensures
            self.gathers(seen, self.gather_frontier(t, frontier, f)),
            t.seen.subset_of(self.gather_frontier(t, frontier, f).seen),
            forall|i: int, q: int, k: int|
                0 <= i < f && 0 <= q < frontier[i].len() && 0 <= k < self.tried(
                    frontier[i][q],
                ).len() ==> self.gather_frontier(t, frontier, f).seen.contains(
                    hash_of(
                        with_choice(
                            frontier[i],
                            frontier[i][q].0,
                            #[trigger] self.tried(frontier[i][q])[k],
                        ),
                    ),
                ),
        decreases f,
    {
        if f > 0 {
            self.frontier_gathered(seen, t, frontier, f - 1);
            self.entries_gathered(
                seen,
                self.gather_frontier(t, frontier, f - 1),
                frontier[f - 1],
                frontier[f - 1].len() as int,
            );
        }
    }

    /// A batch holds, for every entry of every assignment that it starts from and
    /// every other recipe, the assignment that is changed there, unless one that is
    /// known by the same number was looked at before.
    pub proof fn batch_holds_changes(self, s: Search, f: int, p: int, a: int)
        requires
            0 <= f < s.frontier.len(),
            0 <= p < s.frontier[f].len(),
            0 <= a < self.tried(s.frontier[f][p]).len(),
        ensures
            ({
                let h = hash_of(
                    with_choice(s.frontier[f], s.frontier[f][p].0, self.tried(s.frontier[f][p])[a]),
                );
                &&& self.batch(s).seen.contains(h)
                &&& s.seen.contains(h) || exists|i: int|
                    0 <= i < self.batch(s).cands.len() && hash_of(
                        #[trigger] self.batch(s).cands[i],
                    ) == h
            }),
    {
        reveal(Beam::batch);
        let t = Gathered { seen: s.seen, cands: Seq::empty() };
        self.frontier_gathered(s.seen, t, s.frontier, s.frontier.len() as int);
    }

    /// What a batch holds is known by numbers of its own that are new.
    pub proof fn batch_is_new(self, s: Search)
        ensures
            ({
                let cands = self.batch(s).cands;
                &&& forall|i: int|
                    0 <= i < cands.len() ==> !s.seen.contains(hash_of(#[trigger] cands[i]))
                &&& forall|i: int, j: int|
                    0 <= i < j < cands.len() ==> hash_of(#[trigger] cands[i]) != hash_of(
                        #[trigger] cands[j],
                    )
            }),
    {
        reveal(Beam::batch);
        let t = Gathered { seen: s.seen, cands: Seq::empty() };
        self.frontier_gathered(s.seen, t, s.frontier, s.frontier.len() as int);
    }

    proof fn refined_is_least(
        self,
        evals: usize,
        cands: Seq<Seq<(MaterialId, RecipeId)>>,
        top: Seq<usize>,
        j: int,
    )
        requires
            ranks(*self.ar),
            0 <= j <= top.len(),
        ensures
            ({
                let r = self.refine_to(evals, cands, top, j);
                &&& r.best is Some <==> j > 0
                &&& r.best matches Some((sc, at, e)) ==> {
                    &&& top.contains(at)
                    &&& e == self.leads_to(cands[at as int])
                    &&& sc == self.scores(cands[at as int])
                    &&& forall|i: int|
                        0 <= i < j ==> !self.ar.total_before_spec(
                            self.scores(cands[(#[trigger] top[i]) as int]),
                            sc,
                        )
                }
            }),
        decreases j,
    {
        self.ar.total_before_orders();
        if j > 0 {
            self.refined_is_least(evals, cands, top, j - 1);
            assert(top.contains(top[j - 1]));
            let sc = self.scores(cands[top[j - 1] as int]);
            let before = self.refine_to(evals, cands, top, j - 1);
            let now = self.refine_to(evals, cands, top, j);
            if let Some((b, at, e)) = before.best {
                if self.ar.lt_spec(sc, b) {
                    assert forall|i: int| 0 <= i < j implies !self.ar.total_before_spec(
                        self.scores(cands[(#[trigger] top[i]) as int]),
                        sc,
                    ) by {
                        let x = self.scores(cands[top[i] as int]);
                        if i < j - 1 && self.ar.total_before_spec(x, sc) {
                            assert(self.ar.total_before_spec(x, b));
                        }
                    }
                }
            }
        }
    }

    /// Of the candidates of a batch that are worked out, the one that comes first is
    /// the best from now on, where it is better than the best so far. Otherwise the
    /// best stays, and none of them is better.
    pub proof fn batch_finds_the_best(
        self,
        s: Search,
        cands: Seq<Seq<(MaterialId, RecipeId)>>,
        scores: Seq<Scalar>,
        i: int,
    )
        requires
            ranks(*self.ar),
            0 <= i < self.top(cands.len(), scores).len(),
        ensures
            ({
                let t = self.judged(s, cands, scores);
                let x = self.scores(cands[self.top(cands.len(), scores)[i] as int]);
                &&& !better(*self.ar, x, t.best_score)
                &&& self.judged_helps(s, cands, scores) ==> t.best_score == score_of(
                    *self.ar,
                    self.opts.ops_penalty,
                    t.best,
                ) && better(*self.ar, t.best_score, s.best_score) && !self.ar.total_before_spec(
                    x,
                    t.best_score,
                ) && t.frontier.len() > 0 && t.best == self.leads_to(t.frontier[0])
                &&& !self.judged_helps(s, cands, scores) ==> t.best == s.best && t.best_score
                    == s.best_score && t.frontier == s.frontier
            }),
    {
        reveal(Beam::judged);
        reveal(Beam::judged_helps);
        let top = self.top(cands.len(), scores);
        self.refined_is_least(s.evals, cands, top, top.len() as int);
    }

    /// The candidates with a rough score that are worked out: every one of them, or
    /// as many as are wanted, none of which has a worse rough score than one that is
    /// left out.
    pub proof fn top_is_foremost(self, n: nat, scores: Seq<Scalar>, i: int)
        requires
            0 <= i < n <= usize::MAX,
            i < scores.len(),
            self.ar.finite_spec(scores[i]),
        ensures
            ({
                let top = self.top(n, scores);
                let wanted = if self.opts.beam_width < 48 {
                    48
                } else {
                    self.opts.beam_width as int
                };
                top.contains(i as usize) || (top.len() == wanted && forall|j: int|
                    0 <= j < top.len() ==> !self.ar.total_before_spec(
                        scores[i],
                        scores[(#[trigger] top[j]) as int],
                    ))
            }),
    {
        let finite = crate::planner::beam::finite_to(*self.ar, scores, n as int);
        let before = crate::planner::beam::rough_order(*self.ar, finite, scores);
        let at = finite_holds(*self.ar, scores, i, n as int);
        self.ar.total_before_orders();
        let m = finite.len() as int;
        assert(crate::order::orders(before, m));
        crate::order::stable_order_exists(before, m);
        let all = crate::order::sorted(finite, before);
        assert(crate::order::sorted_by(finite, before, all)) by {
            let p = choose|p: Seq<usize>| #[trigger] crate::order::stable_order(before, m, p);
            assert(all == crate::order::listed(finite, p));
        }
        crate::order::sorted_by_permutes(finite, before, all);
        assert(all.contains(finite[at]));
        let k = choose|k: int| 0 <= k < all.len() && all[k] == finite[at];
        let top = self.top(n, scores);
        let wanted = if self.opts.beam_width < 48 {
            48
        } else {
            self.opts.beam_width as int
        };
        if k < wanted {
            assert(top[k] == i as usize);
        } else {
            assert forall|j: int| 0 <= j < top.len() implies !self.ar.total_before_spec(
                scores[i],
                scores[(#[trigger] top[j]) as int],
            ) by {
                assert(top[j] == all[j]);
                assert(crate::order::comes_ahead(finite, before, all[j], all[k]));
                let (x, y) = choose|x: int, y: int|
                    0 <= x < m && 0 <= y < m && #[trigger] finite[x] == all[j] && #[trigger] finite[y]
                        == all[k] && crate::order::ahead(before, x, y);
                assert(before(x, y) || !before(y, x));
            }
        }
    }
}

proof fn finite_holds<A: Arithmetic>(ar: A, scores: Seq<Scalar>, i: int, n: int) -> (at: int)
    requires
        0 <= i < n <= usize::MAX,
        i < scores.len(),
        ar.finite_spec(scores[i]),
    ensures
        0 <= at < crate::planner::beam::finite_to(ar, scores, n).len() <= n,
        crate::planner::beam::finite_to(ar, scores, n)[at] == i,
    decreases n,
{
    finite_few(ar, scores, n - 1);
    if i < n - 1 {
        finite_holds(ar, scores, i, n - 1)
    } else {
        crate::planner::beam::finite_to(ar, scores, n - 1).len() as int
    }
}

proof fn finite_few<A: Arithmetic>(ar: A, scores: Seq<Scalar>, n: int)
    requires
        0 <= n,
    ensures
        crate::planner::beam::finite_to(ar, scores, n).len() <= n,
    decreases n,
{
    if n > 0 {
        finite_few(ar, scores, n - 1);
    }
}

impl<'a, A: Arithmetic> Beam<'a, A> {
    /// Of two searches the one with the lesser score is kept, and the efforts of both
    /// count.
    pub proof fn better_search_is_kept(self, a: Search, b: Search)
        requires
            ranks(*self.ar),
        ensures
            ({
                let r = self.better_of(a, b);
                &&& !self.ar.lt_spec(a.best_score, r.best_score)
                &&& !self.ar.lt_spec(b.best_score, r.best_score)
                &&& (r.best == a.best && r.best_score == a.best_score) || (r.best == b.best
                    && r.best_score == b.best_score)
                &&& r.improved <==> a.improved || b.improved
                &&& a.evals + b.evals <= usize::MAX ==> r.evals == a.evals + b.evals
                &&& a.rounds + b.rounds <= usize::MAX ==> r.rounds == a.rounds + b.rounds
            }),
    {
        self.ar.total_before_orders();
        let (x, y) = (a.best_score, b.best_score);
        assert(self.ar.lt_spec(x, y) <==> self.ar.total_before_spec(x, y));
        assert(self.ar.lt_spec(y, x) <==> self.ar.total_before_spec(y, x));
        assert(self.ar.lt_spec(x, x) <==> self.ar.total_before_spec(x, x));
        assert(self.ar.lt_spec(y, y) <==> self.ar.total_before_spec(y, y));
    }
}

} // verus!

//! The balance of every material in an expansion.
use vstd::prelude::*;

use crate::balance::Measure;
use crate::choices::Choices;
use crate::model::{MaterialId, RecipeId, Slot};
use crate::planner::tree::{eps, Expansion, Tree};
use crate::scalar::{Arithmetic, Scalar};

verus! {

/// What an expansion did about a material.
pub struct Account {
    /// How much was asked for.
    pub asked: int,
    /// How much was made by the recipe for it.
    pub made: int,
    /// How much came out besides, of recipes for other materials.
    pub besides: int,
}

/// The numbers of a tree are amounts within range.
pub open spec fn fits_tree(w: Measure, t: Tree) -> bool {
    forall|i: int|
        0 <= i < t.demand.len() ==> (w.fits)(#[trigger] t.demand[i]) && (w.fits)(t.raw[i]) && (
        w.fits)(t.byproduct[i])
}

/// The lists of a tree have one entry for each of `n` materials.
pub open spec fn lists(t: Tree, n: int) -> bool {
    &&& t.demand.len() == n
    &&& t.raw.len() == n
    &&& t.byproduct.len() == n
    &&& t.queued.len() == n
    &&& t.visits.len() == n
}

/// What is wanted is in the queue, once.
pub open spec fn queues(w: Measure, t: Tree) -> bool {
    &&& t.queue.no_duplicates()
    &&& forall|i: int| 0 <= i < t.queue.len() ==> #[trigger] t.queue[i] < t.queued.len()
    &&& forall|m: MaterialId|
        m < t.queued.len() ==> (#[trigger] t.queued[m as int] <==> t.queue.contains(m))
    &&& forall|m: MaterialId|
        m < t.demand.len() && (w.of)(#[trigger] t.demand[m as int]) > 0 ==> t.queued[m as int]
}

impl<'a, A: Arithmetic> Expansion<'a, A> {
    /// The recipe that the next step runs for the first material of the queue;
    /// none where that comes from outside, or the expansion is broken off.
    pub open spec fn runs(self, t: Tree) -> Option<RecipeId> {
        let m = t.queue[0];
        let i = m as int;
        let qty = t.demand[i];
        let rid = match t.chosen[i] {
            Some(rid) => Some(rid),
            None => self.pick(m),
        };
        if self.ar.le_spec(qty, eps(*self.ar)) || !self.ar.finite_spec(qty) || self.ar.lt_spec(
            self.ar.ratio_spec(1_000_000_000_000_000, 1),
            qty,
        ) || t.visits[i] >= 16 || self.g.source_spec(m) {
            None
        } else {
            match rid {
                Some(r) => if crate::util::qty_in(self.g.recipes@[r as int].outputs@, m) is Some
                    && t.expansions < self.req.max_ops {
                    Some(r)
                } else {
                    None
                },
                None => None,
            }
        }
    }

    /// How many operations the next step runs.
    pub open spec fn runs_for(self, t: Tree, rid: RecipeId) -> Scalar {
        let m = t.queue[0];
        self.ops_for(
            m,
            rid,
            crate::util::qty_in(self.g.recipes@[rid as int].outputs@, m)->0,
            t.demand[m as int],
        )
    }

    /// What output slot `s` gives.
    pub open spec fn given_by(self, rid: RecipeId, ops: Scalar, s: int) -> Option<(MaterialId, Scalar)> {
        match self.g.recipes@[rid as int].outputs@[s].primary_spec() {
            Some((om, oq)) => Some(
                (
                    om,
                    self.ar.times_spec(
                        self.ar.times_spec(ops, self.ar.ratio_spec(oq, 1)),
                        self.g.output_chance_spec(*self.ar, rid, om),
                    ),
                ),
            ),
            None => None,
        }
    }

    /// What input slot `s` takes.
    pub open spec fn taken_by(self, slots: Seq<Slot>, ops: Scalar, s: int) -> Option<(MaterialId, Scalar)> {
        match crate::util::cheapest_spec(
            *self.ar,
            *self.g,
            self.an.cost.unit_cost@,
            Some(self.an.cost.cyclic@),
            slots[s],
        ) {
            Some((am, aq)) => Some((am, self.ar.times_spec(ops, self.ar.ratio_spec(aq, 1)))),
            None => None,
        }
    }

    /// How much of `x` the first `s` output slots of a recipe for `m` give.
    pub open spec fn besides_to(self, w: Measure, m: MaterialId, rid: RecipeId, ops: Scalar, x: MaterialId, s: int) -> int
        decreases s,
    {
        if s <= 0 {
            0
        } else {
            self.besides_to(w, m, rid, ops, x, s - 1) + match self.given_by(rid, ops, s - 1) {
                Some((om, q)) => if om == x && om != m {
                    (w.of)(q)
                } else {
                    0
                },
                None => 0,
            }
        }
    }

    /// How much of `x` the first `s` input slots of a recipe take.
    pub open spec fn asked_to(self, w: Measure, slots: Seq<Slot>, ops: Scalar, x: MaterialId, s: int) -> int
        decreases s,
    {
        if s <= 0 {
            0
        } else {
            self.asked_to(w, slots, ops, x, s - 1) + match self.taken_by(slots, ops, s - 1) {
                Some((am, q)) => if am == x {
                    (w.of)(q)
                } else {
                    0
                },
                None => 0,
            }
        }
    }

    /// The account of `x` after the next step.
    pub open spec fn booked(self, w: Measure, c: Account, t: Tree, x: MaterialId) -> Account {
        match self.runs(t) {
            None => c,
            Some(rid) => {
                let m = t.queue[0];
                let r = self.g.recipes@[rid as int];
                let ops = self.runs_for(t, rid);
                Account {
                    asked: c.asked + self.asked_to(w, r.inputs@, ops, x, r.inputs@.len() as int),
                    made: c.made + if x == m {
                        (w.of)(t.demand[m as int])
                    } else {
                        0
                    },
                    besides: c.besides + self.besides_to(w, m, rid, ops, x, r.outputs@.len() as int),
                }
            },
        }
    }

    /// The account of `x` after `k` steps.
    pub open spec fn account(self, w: Measure, overrides: Seq<(MaterialId, RecipeId)>, x: MaterialId, k: nat) -> Account
        decreases k,
    {
        if k == 0 {
            Account {
                asked: if x == self.req.target {
                    (w.of)(self.req.rate_per_min)
                } else {
                    0
                },
                made: 0,
                besides: 0,
            }
        } else {
            let t = self.after(self.start(overrides), (k - 1) as nat);
            let c = self.account(w, overrides, x, (k - 1) as nat);
            if t.done() {
                c
            } else {
                self.booked(w, c, t, x)
            }
        }
    }

    /// The tree when the recipe of the next step is about to run.
    pub open spec fn about_to_run(self, t: Tree, rid: RecipeId) -> Tree {
        let m = t.queue[0];
        let i = m as int;
        Tree {
            queue: t.queue.drop_first(),
            queued: t.queued.update(i, false),
            demand: t.demand.update(i, self.ar.ratio_spec(0, 1)),
            visits: t.visits.update(i, (t.visits[i] + 1) as u16),
            chosen: if t.chosen[i] is Some {
                t.chosen
            } else {
                t.chosen.update(i, Some(rid))
            },
            expansions: t.expansions + 1,
            ops: t.ops.update(
                rid as int,
                self.ar.plus_spec(t.ops[rid as int], self.runs_for(t, rid)),
            ),
            ..t
        }
    }

    /// All amounts of the next step are within range.
    pub open spec fn fits_step(self, w: Measure, t: Tree) -> bool {
        &&& fits_tree(w, t)
        &&& fits_tree(w, self.step(t))
        &&& self.runs(t) matches Some(rid) ==> {
            let m = t.queue[0];
            let r = self.g.recipes@[rid as int];
            let ops = self.runs_for(t, rid);
            let t1 = self.about_to_run(t, rid);
            let t2 = self.give_to(t1, m, rid, ops, r.outputs@.len() as int);
            &&& forall|s: int|
                0 <= s < r.outputs@.len() ==> (#[trigger] self.given_by(rid, ops, s) matches Some(
                    (_, q),
                ) ==> (w.fits)(q))
            &&& forall|s: int|
                0 <= s < r.inputs@.len() ==> (#[trigger] self.taken_by(r.inputs@, ops, s) matches Some(
                    (_, q),
                ) ==> (w.fits)(q))
            &&& forall|s: int|
                0 <= s <= r.outputs@.len() ==> fits_tree(
                    w,
                    #[trigger] self.give_to(t1, m, rid, ops, s),
                )
            &&& forall|s: int|
                0 <= s <= r.inputs@.len() ==> fits_tree(
                    w,
                    #[trigger] self.want_to(t2, r.inputs@, ops, s),
                )
        }
    }

    /// The account of a material is balanced: what was asked for and what is left
    /// over were made, came besides, came from outside, or are still wanted.
    pub open spec fn balanced(self, w: Measure, c: Account, t: Tree, x: MaterialId) -> bool {
        c.asked + (w.of)(t.byproduct[x as int]) == c.made + c.besides + (w.of)(t.raw[x as int]) + (
        w.of)(t.demand[x as int])
    }

    proof fn giving_balances(
        self,
        w: Measure,
        t: Tree,
        m: MaterialId,
        rid: RecipeId,
        ops: Scalar,
        x: MaterialId,
        s: int,
    )
        requires
            self.ok(),
            rid < self.g.r_count(),
            w.measures(*self.ar),
            lists(t, self.g.m_count()),
            x < self.g.m_count(),
            0 <= s <= self.g.recipes@[rid as int].outputs@.len(),
            queues(w, t),
            forall|s: int|
                0 <= s < self.g.recipes@[rid as int].outputs@.len() ==> (#[trigger] self.given_by(
                    rid,
                    ops,
                    s,
                ) matches Some((_, q)) ==> (w.fits)(q)),
            forall|s: int|
                0 <= s <= self.g.recipes@[rid as int].outputs@.len() ==> fits_tree(
                    w,
                    #[trigger] self.give_to(t, m, rid, ops, s),
                ),
        ensures
            ({
                let u = self.give_to(t, m, rid, ops, s);
                &&& lists(u, self.g.m_count())
                &&& queues(w, u)
                &&& u.truncated == t.truncated
                &&& (w.of)(u.demand[x as int]) + (w.of)(u.raw[x as int]) - (w.of)(
                    u.byproduct[x as int],
                ) + self.besides_to(w, m, rid, ops, x, s) == (w.of)(t.demand[x as int]) + (w.of)(
                    t.raw[x as int],
                ) - (w.of)(t.byproduct[x as int])
            }),
        decreases s,
    {
        if s > 0 {
            self.giving_balances(w, t, m, rid, ops, x, s - 1);
            let u = self.give_to(t, m, rid, ops, s - 1);
            let v = self.give_to(t, m, rid, ops, s);
            assert(fits_tree(w, u));
            assert(fits_tree(w, v));
            let slots = self.g.recipes@[rid as int].outputs@;
            assert(crate::graph::slot_ok(slots[s - 1], self.g.m_count()));
            if let Some((om, left)) = self.given_by(rid, ops, s - 1) {
                assert(om < self.g.m_count());
                if om != m {
                    give_balances(*self.ar, w, u, om, left, x);
                }
            }
        }
    }

    proof fn wanting_balances(
        self,
        w: Measure,
        t: Tree,
        slots: Seq<Slot>,
        ops: Scalar,
        x: MaterialId,
        s: int,
    )
        requires
            crate::graph::slots_ok(slots, self.g.m_count()),
            w.measures(*self.ar),
            lists(t, self.g.m_count()),
            x < self.g.m_count(),
            0 <= s <= slots.len(),
            queues(w, t),
            forall|s: int|
                0 <= s < slots.len() ==> (#[trigger] self.taken_by(slots, ops, s) matches Some(
                    (_, q),
                ) ==> (w.fits)(q)),
            forall|s: int|
                0 <= s <= slots.len() ==> fits_tree(w, #[trigger] self.want_to(t, slots, ops, s)),
        ensures
            ({
                let u = self.want_to(t, slots, ops, s);
                &&& lists(u, self.g.m_count())
                &&& queues(w, u)
                &&& u.truncated == t.truncated
                &&& u.raw == t.raw
                &&& u.byproduct == t.byproduct
                &&& (w.of)(u.demand[x as int]) == (w.of)(t.demand[x as int]) + self.asked_to(
                    w,
                    slots,
                    ops,
                    x,
                    s,
                )
            }),
        decreases s,
    {
        if s > 0 {
            self.wanting_balances(w, t, slots, ops, x, s - 1);
            let u = self.want_to(t, slots, ops, s - 1);
            let v = self.want_to(t, slots, ops, s);
            assert(fits_tree(w, u));
            assert(fits_tree(w, v));
            let alts = slots[s - 1].alts@;
            assert(crate::graph::slot_ok(slots[s - 1], self.g.m_count()));
            crate::util::cheapest_is_candidate(
                *self.ar,
                *self.g,
                self.an.cost.unit_cost@,
                Some(self.an.cost.cyclic@),
                alts,
                alts.len() as int,
            );
            if let Some((am, q)) = self.taken_by(slots, ops, s - 1) {
                let aq = crate::util::cheapest_spec(
                    *self.ar,
                    *self.g,
                    self.an.cost.unit_cost@,
                    Some(self.an.cost.cyclic@),
                    slots[s - 1],
                )->0;
                assert(alts.contains(aq));
                let a = choose|a: int| 0 <= a < alts.len() && alts[a] == aq;
                assert(alts[a].0 < self.g.m_count());
                want_queues(*self.ar, w, u, am, q);
                assert((w.fits)(u.demand[x as int]));
                assert((w.fits)(v.demand[x as int]));
            }
        }
    }

    proof fn step_balances(self, w: Measure, c: Account, t: Tree, x: MaterialId)
        requires
            self.ok(),
            self.sound(t),
            w.measures(*self.ar),
            lists(t, self.g.m_count()),
            x < self.g.m_count(),
            t.queue.len() > 0,
            !t.truncated,
            !self.step(t).truncated,
            queues(w, t),
            self.fits_step(w, t),
            self.balanced(w, c, t, x),
        ensures
            lists(self.step(t), self.g.m_count()),
            queues(w, self.step(t)),
            self.balanced(w, self.booked(w, c, t, x), self.step(t), x),
    {
        let m = t.queue[0];
        let i = m as int;
        let qty = t.demand[i];
        let u = self.step(t);
        assert((w.fits)(t.demand[x as int]));
        let popped = Tree {
            queue: t.queue.drop_first(),
            queued: t.queued.update(i, false),
            demand: t.demand.update(i, self.ar.ratio_spec(0, 1)),
            ..t
        };
        assert(m < self.g.m_count());
        pop_queues(*self.ar, w, t, popped);
        match self.runs(t) {
            Some(rid) => {
                self.pick_fits(m, self.g.producers@[i]@.len() as int);
                assert(rid < self.g.r_count());
                let r = self.g.recipes@[rid as int];
                let ops = self.runs_for(t, rid);
                let t1 = self.about_to_run(t, rid);
                assert(queues(w, t1));
                self.giving_balances(w, t1, m, rid, ops, x, r.outputs@.len() as int);
                let t2 = self.give_to(t1, m, rid, ops, r.outputs@.len() as int);
                self.wanting_balances(w, t2, r.inputs@, ops, x, r.inputs@.len() as int);
                assert(u == self.want_to(t2, r.inputs@, ops, r.inputs@.len() as int));
            },
            None => {
                let rid = match t.chosen[i] {
                    Some(rid) => Some(rid),
                    None => self.pick(m),
                };
                assert(u.demand == popped.demand && u.queue == popped.queue && u.queued
                    == popped.queued && u.byproduct == t.byproduct);
                assert((w.fits)(t.demand[i]));
                if self.ar.le_spec(qty, eps(*self.ar)) {
                    assert(u.raw == t.raw);
                } else {
                    assert(u.raw == t.raw.update(i, self.ar.plus_spec(t.raw[i], qty)));
                    assert((w.fits)(u.demand[i]));
                }
            },
        }
    }

    proof fn after_end(self, t: Tree, k: nat)
        requires
            self.after(t, k).done(),
        ensures
            self.after(t, k + 1) == self.after(t, k),
        decreases k,
    {
        reveal_with_fuel(Expansion::after, 2);
        if k > 0 && !t.done() {
            self.after_end(self.step(t), (k - 1) as nat);
        }
    }

    proof fn steps_balance(
        self,
        w: Measure,
        overrides: Choices,
        x: MaterialId,
        k: nat,
    )
        requires
            self.ok(),
            overrides.fits(*self.g),
            w.measures(*self.ar),
            (w.fits)(self.req.rate_per_min),
            fits_tree(w, self.start(overrides.entries@)),
            forall|j: nat|
                j < k && !(#[trigger] self.after(self.start(overrides.entries@), j)).done()
                    ==> self.fits_step(w, self.after(self.start(overrides.entries@), j)),
            x < self.g.m_count(),
            !self.after(self.start(overrides.entries@), k).truncated,
        ensures
            lists(self.after(self.start(overrides.entries@), k), self.g.m_count()),
            queues(w, self.after(self.start(overrides.entries@), k)),
            self.balanced(
                w,
                self.account(w, overrides.entries@, x, k),
                self.after(self.start(overrides.entries@), k),
                x,
            ),
        decreases k,
    {
        let s = self.start(overrides.entries@);
        if k > 0 {
            let t = self.after(s, (k - 1) as nat);
            if t.done() {
                self.after_end(s, (k - 1) as nat);
            } else {
                self.after_step(s, (k - 1) as nat);
            }
            self.stays_sound(overrides, (k - 1) as nat);
            self.steps_balance(w, overrides, x, (k - 1) as nat);
            if !t.done() {
                self.step_balances(w, self.account(w, overrides.entries@, x, (k - 1) as nat), t, x);
            }
        } else {
            let zero = self.ar.ratio_spec(0, 1);
            let n = self.g.m_count() as nat;
            let blank = Tree {
                demand: Seq::new(n, |m: int| zero),
                raw: Seq::new(n, |m: int| zero),
                byproduct: Seq::new(n, |m: int| zero),
                chosen: Seq::new(n, |m: int| crate::choices::chosen_in(overrides.entries@, m as u32)),
                ops: Seq::new(self.g.r_count() as nat, |r: int| zero),
                queued: Seq::new(n, |m: int| false),
                queue: Seq::empty(),
                visits: Seq::new(n, |m: int| 0u16),
                limit_hit: false,
                no_route: Seq::empty(),
                expansions: 0,
                truncated: false,
                notes: Seq::empty(),
            };
            want_queues(*self.ar, w, blank, self.req.target, self.req.rate_per_min);
            assert(s == blank.want(*self.ar, self.req.target, self.req.rate_per_min));
            assert((w.fits)(s.demand[x as int]));
            assert((w.fits)(s.demand[self.req.target as int]));
        }
    }

    /// At the end of an expansion that was not broken off every material is in
    /// balance: what was asked for of it, with what is left over, is what was made
    /// of it, what came out besides, and what comes from outside.
    pub proof fn every_material_balances(
        self,
        w: Measure,
        overrides: Choices,
        x: MaterialId,
        k: nat,
    )
        requires
            self.ok(),
            overrides.fits(*self.g),
            w.measures(*self.ar),
            (w.fits)(self.req.rate_per_min),
            fits_tree(w, self.start(overrides.entries@)),
            forall|j: nat|
                j < k && !(#[trigger] self.after(self.start(overrides.entries@), j)).done()
                    ==> self.fits_step(w, self.after(self.start(overrides.entries@), j)),
            x < self.g.m_count(),
            self.after(self.start(overrides.entries@), k).done(),
            !self.after(self.start(overrides.entries@), k).truncated,
        ensures
            ({
                let t = self.after(self.start(overrides.entries@), k);
                let c = self.account(w, overrides.entries@, x, k);
                c.asked + (w.of)(t.byproduct[x as int]) == c.made + c.besides + (w.of)(
                    t.raw[x as int],
                )
            }),
    {
        self.steps_balance(w, overrides, x, k);
        self.ranges_hold(w, overrides, k);
        let t = self.after(self.start(overrides.entries@), k);
        assert((w.fits)(t.demand[x as int]));
        assert(!t.queue.contains(x));
        assert(!t.queued[x as int]);
    }

    proof fn ranges_hold(self, w: Measure, overrides: Choices, k: nat)
        requires
            fits_tree(w, self.start(overrides.entries@)),
            forall|j: nat|
                j < k && !(#[trigger] self.after(self.start(overrides.entries@), j)).done()
                    ==> self.fits_step(w, self.after(self.start(overrides.entries@), j)),
        ensures
            fits_tree(w, self.after(self.start(overrides.entries@), k)),
        decreases k,
    {
        if k > 0 {
            self.ranges_hold(w, overrides, (k - 1) as nat);
            let t = self.after(self.start(overrides.entries@), (k - 1) as nat);
            if t.done() {
                self.after_end(self.start(overrides.entries@), (k - 1) as nat);
            } else {
                self.after_step(self.start(overrides.entries@), (k - 1) as nat);
                assert(self.fits_step(w, t));
            }
        }
    }
}

/// What is made besides settles what comes from outside, then what is wanted, and
/// the rest is left over.
proof fn give_balances<A: Arithmetic>(
    ar: A,
    w: Measure,
    t: Tree,
    m: MaterialId,
    left: Scalar,
    x: MaterialId,
)
    requires
        w.measures(ar),
        (w.fits)(left),
        lists(t, t.demand.len() as int),
        fits_tree(w, t),
        fits_tree(w, t.give(ar, m, left)),
        m < t.demand.len(),
        x < t.demand.len(),
        queues(w, t),
    ensures
        ({
            let u = t.give(ar, m, left);
            &&& lists(u, t.demand.len() as int)
            &&& queues(w, u)
            &&& (w.of)(u.demand[x as int]) + (w.of)(u.raw[x as int]) - (w.of)(
                u.byproduct[x as int],
            ) + (if m == x { (w.of)(left) } else { 0 }) == (w.of)(t.demand[x as int]) + (w.of)(
                t.raw[x as int],
            ) - (w.of)(t.byproduct[x as int])
        }),
{
    let u = t.give(ar, m, left);
    assert((w.fits)(t.demand[m as int]));
    assert((w.fits)(t.demand[x as int]));
    if !ar.le_spec(left, eps(ar)) {
        assert(lists(u, t.demand.len() as int));
        assert((w.fits)(u.demand[m as int]));
        assert forall|y: MaterialId|
            y < u.demand.len() && (w.of)(#[trigger] u.demand[y as int]) > 0 implies u.queued[y as int] by {
            assert((w.of)(t.demand[y as int]) > 0);
        }
        assert(u.queue == t.queue && u.queued == t.queued);
    }
}

/// Wanting something keeps the queue.
proof fn want_queues<A: Arithmetic>(ar: A, w: Measure, t: Tree, m: MaterialId, q: Scalar)
    requires
        queues(w, t),
        t.demand.len() == t.queued.len(),
        m < t.queued.len(),
    ensures
        queues(w, t.want(ar, m, q)),
{
    let u = t.want(ar, m, q);
    assert forall|y: MaterialId|
        y < u.demand.len() && (w.of)(#[trigger] u.demand[y as int]) > 0 implies u.queued[y as int] by {
        if y != m {
            assert(u.demand[y as int] == t.demand[y as int]);
        }
    }
    if t.queue != u.queue {
        assert(!t.queued[m as int]);
        assert(!t.queue.contains(m));
        assert(u.queue == t.queue.push(m));
        assert(u.queue[t.queue.len() as int] == m);
        assert forall|x: MaterialId| x < u.queued.len() implies (#[trigger] u.queued[x as int]
            <==> u.queue.contains(x)) by {
            if t.queue.contains(x) {
                let k = choose|k: int| 0 <= k < t.queue.len() && t.queue[k] == x;
                assert(u.queue[k] == x);
            }
            assert(t.queued[x as int] <==> t.queue.contains(x));
        }
    }
}

/// Taking the first demand up keeps the queue.
proof fn pop_queues<A: Arithmetic>(ar: A, w: Measure, t: Tree, u: Tree)
    requires
        w.measures(ar),
        queues(w, t),
        t.queue.len() > 0,
        t.demand.len() == t.queued.len(),
        u.queue == t.queue.drop_first(),
        u.queued == t.queued.update(t.queue[0] as int, false),
        u.demand == t.demand.update(t.queue[0] as int, ar.ratio_spec(0, 1)),
    ensures
        queues(w, u),
{
    let m = t.queue[0];
    assert forall|y: MaterialId|
        y < u.demand.len() && (w.of)(#[trigger] u.demand[y as int]) > 0 implies u.queued[y as int] by {
        if y != m {
            assert(u.demand[y as int] == t.demand[y as int]);
        }
    }
    assert forall|i: int| 0 <= i < u.queue.len() implies #[trigger] u.queue[i] < u.queued.len() by {
        assert(u.queue[i] == t.queue[i + 1]);
    }
    assert forall|a: int, b: int|
        0 <= a < u.queue.len() && 0 <= b < u.queue.len() && a != b implies u.queue[a]
        != u.queue[b] by {
        assert(t.queue[a + 1] != t.queue[b + 1]);
    }
    assert forall|x: MaterialId| x < u.queued.len() implies (#[trigger] u.queued[x as int]
        <==> u.queue.contains(x)) by {
        assert(t.queued[x as int] <==> t.queue.contains(x));
        if t.queue.contains(x) && x != m {
            let k = choose|k: int| 0 <= k < t.queue.len() && t.queue[k] == x;
            assert(u.queue[k - 1] == x);
        }
        if u.queue.contains(x) {
            let k = choose|k: int| 0 <= k < u.queue.len() && u.queue[k] == x;
            assert(t.queue[k + 1] == x);
            assert(t.queue[0] != t.queue[k + 1]);
        }
    }
}

} // verus!

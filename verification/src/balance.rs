//! Balances: what goes in comes out.
//!
//! Numbers may be rounded, so the laws here are stated for numbers that measure
//! exactly: taking off and adding up are what they are for whole numbers, as long
//! as no number is out of range. Fixed-point numbers measure exactly.
use vstd::prelude::*;

use crate::fixed::Fixed;
use crate::plan::Plan;
use crate::process::{
    end_to, flow_texts, hand_to, key_text, made_by, serve_to, shows_plan, used_by, FlowText, KeyText,
    ProcessGraph, Share,
};
use crate::scalar::{Arithmetic, Scalar};

verus! {

/// How much numbers stand for, and which numbers are amounts within range.
pub struct Measure {
    pub of: spec_fn(Scalar) -> int,
    pub fits: spec_fn(Scalar) -> bool,
}

impl Measure {
    /// Amounts within range are compared, taken off one another and added up as
    /// whole numbers are, and what counts as nothing is nothing.
    pub open spec fn measures<A: Arithmetic>(self, ar: A) -> bool {
        let zero = ar.ratio_spec(0, 1);
        let eps = crate::planner::tree::eps(ar);
        &&& (self.fits)(zero) && (self.of)(zero) == 0
        &&& (self.fits)(eps) && (self.of)(eps) == 0
        &&& forall|a: Scalar| #[trigger]
            (self.fits)(a) ==> (self.of)(a) >= 0 && ar.finite_spec(a)
        &&& forall|a: Scalar, b: Scalar|
            (self.fits)(a) && (self.fits)(b) ==> (#[trigger] ar.le_spec(a, b) <==> (self.of)(a)
                <= (self.of)(b))
        &&& forall|a: Scalar, b: Scalar|
            (self.fits)(a) && (self.fits)(b) ==> (#[trigger] ar.lt_spec(a, b) <==> (self.of)(a)
                < (self.of)(b))
        &&& forall|a: Scalar, b: Scalar|
            (self.fits)(a) && (self.fits)(b) ==> {
                let c = #[trigger] ar.least_spec(a, b);
                (self.fits)(c) && (self.of)(c) == if (self.of)(a) <= (self.of)(b) {
                    (self.of)(a)
                } else {
                    (self.of)(b)
                }
            }
        &&& forall|a: Scalar, b: Scalar|
            (self.fits)(a) && (self.fits)(b) && (self.of)(b) <= (self.of)(a) ==> {
                let c = #[trigger] ar.minus_spec(a, b);
                (self.fits)(c) && (self.of)(c) == (self.of)(a) - (self.of)(b)
            }
        &&& forall|a: Scalar, b: Scalar|
            (self.fits)(a) && (self.fits)(b) && (self.fits)(#[trigger] ar.plus_spec(a, b)) ==> (
            self.of)(ar.plus_spec(a, b)) == (self.of)(a) + (self.of)(b)
    }
}

/// Fixed-point numbers as counts of millionths; those that are neither below zero
/// nor out of reach are within range.
pub open spec fn fixed_measure() -> Measure {
    Measure {
        of: |a: Scalar| crate::fixed::parts(a),
        fits: |a: Scalar| crate::fixed::parts(a) >= 0 && !crate::fixed::boundless(a),
    }
}

/// Fixed-point numbers measure exactly.
pub proof fn fixed_measures()
    ensures
        fixed_measure().measures(Fixed),
{
}

/// What the items weigh together.
pub open spec fn weigh<T>(v: Seq<T>, w: spec_fn(T) -> int) -> int
    decreases v.len(),
{
    if v.len() == 0 {
        0
    } else {
        weigh(v.drop_last(), w) + w(v.last())
    }
}

proof fn weigh_push<T>(v: Seq<T>, x: T, w: spec_fn(T) -> int)
    ensures
        weigh(v.push(x), w) == weigh(v, w) + w(x),
{
    assert(v.push(x).drop_last() =~= v);
}

proof fn weigh_update<T>(v: Seq<T>, i: int, x: T, w: spec_fn(T) -> int)
    requires
        0 <= i < v.len(),
    ensures
        weigh(v.update(i, x), w) == weigh(v, w) - w(v[i]) + w(x),
    decreases v.len(),
{
    let n = v.len() - 1;
    if i == n {
        assert(v.update(i, x).drop_last() =~= v.drop_last());
    } else {
        assert(v.update(i, x).drop_last() =~= v.drop_last().update(i, x));
        weigh_update(v.drop_last(), i, x, w);
    }
}

proof fn weigh_remove<T>(v: Seq<T>, i: int, w: spec_fn(T) -> int)
    requires
        0 <= i < v.len(),
    ensures
        weigh(v.remove(i), w) == weigh(v, w) - w(v[i]),
    decreases v.len(),
{
    let n = v.len() - 1;
    if i == n {
        assert(v.remove(i) =~= v.drop_last());
    } else {
        assert(v.remove(i).drop_last() =~= v.drop_last().remove(i));
        assert(v.remove(i).last() == v.last());
        weigh_remove(v.drop_last(), i, w);
    }
}

/// A list weighs the same in any order.
proof fn weigh_listed<T>(v: Seq<T>, p: Seq<usize>, w: spec_fn(T) -> int)
    requires
        p.len() == v.len(),
        v.len() <= usize::MAX,
        p.no_duplicates(),
        forall|a: int| 0 <= a < p.len() ==> #[trigger] p[a] < v.len(),
        forall|x: usize| x < v.len() ==> p.contains(x),
    ensures
        weigh(crate::order::listed(v, p), w) == weigh(v, w),
    decreases v.len(),
{
    let n = v.len() as int;
    let u = crate::order::listed(v, p);
    if n > 0 {
        let top = (n - 1) as usize;
        assert(p.contains(top));
        let i = choose|i: int| 0 <= i < p.len() && p[i] == top;
        let q = p.remove(i);
        let rest = v.drop_last();
        assert forall|a: int| 0 <= a < q.len() implies #[trigger] q[a] < rest.len() by {
            let b = if a < i { a } else { a + 1 };
            assert(q[a] == p[b]);
            assert(p[b] != p[i]);
        }
        assert forall|a: int, b: int| 0 <= a < q.len() && 0 <= b < q.len() && a != b implies q[a]
            != q[b] by {
            let a2 = if a < i { a } else { a + 1 };
            let b2 = if b < i { b } else { b + 1 };
            assert(q[a] == p[a2] && q[b] == p[b2]);
        }
        assert forall|x: usize| x < rest.len() implies q.contains(x) by {
            assert(p.contains(x));
            let b = choose|b: int| 0 <= b < p.len() && p[b] == x;
            let a = if b < i { b } else { b - 1 };
            assert(q[a] == x);
        }
        weigh_listed(rest, q, w);
        assert(u.remove(i) =~= crate::order::listed(rest, q)) by {
            assert forall|a: int| 0 <= a < q.len() implies u.remove(i)[a] == rest[q[a] as int] by {
                let b = if a < i { a } else { a + 1 };
                assert(q[a] == p[b]);
            }
        }
        weigh_remove(u, i, w);
    }
}

/// A list weighs the same when it is sorted.
pub(crate) proof fn weigh_sorted<T>(v: Seq<T>, before: spec_fn(int, int) -> bool, w: spec_fn(T) -> int)
    requires
        v.len() <= usize::MAX,
        crate::order::orders(before, v.len() as int),
    ensures
        weigh(crate::order::sorted(v, before), w) == weigh(v, w),
        crate::order::sorted(v, before).len() == v.len(),
        forall|i: int| 0 <= i < v.len() ==> v.contains(#[trigger] crate::order::sorted(v, before)[i]),
{
    crate::order::sorted_holds(v, before);
    crate::order::stable_order_exists(before, v.len() as int);
    let p = choose|p: Seq<usize>| #[trigger]
        crate::order::stable_order(before, v.len() as int, p);
    crate::order::stable_order_is_permutation(before, v.len() as int, p);
    weigh_listed(v, p, w);
}

impl Measure {
    /// The rates are amounts within range.
    pub open spec fn fit(self, v: Seq<Share>) -> bool {
        forall|i: int| 0 <= i < v.len() ==> (self.fits)((#[trigger] v[i]).rate)
    }

    /// How much of a material a step makes or uses.
    pub open spec fn at_step(self, step: usize, key: KeyText) -> spec_fn(Share) -> int {
        |s: Share|
            if s.step == step && key_text(s.material) == key {
                (self.of)(s.rate)
            } else {
                0
            }
    }

    /// How much of a material flows out of a step.
    pub open spec fn out_of(self, step: usize, key: KeyText) -> spec_fn(FlowText) -> int {
        |f: FlowText|
            if f.from_step == Some(step) && key_text(f.material) == key {
                (self.of)(f.rate_per_min)
            } else {
                0
            }
    }

    /// How much of a material flows into a step.
    pub open spec fn into(self, step: usize, key: KeyText) -> spec_fn(FlowText) -> int {
        |f: FlowText|
            if f.to_step == Some(step) && key_text(f.material) == key {
                (self.of)(f.rate_per_min)
            } else {
                0
            }
    }

    proof fn serving_balances<A: Arithmetic>(
        self,
        ar: A,
        made: Seq<Share>,
        use_of: Share,
        flows: Seq<FlowText>,
        k: int,
        step: usize,
        key: KeyText,
    )
        requires
            self.measures(ar),
            self.fit(made),
            (self.fits)(use_of.rate),
            0 <= k <= made.len(),
        ensures
            ({
                let s = serve_to(ar, made, use_of, flows, k);
                let w = self.at_step(step, key);
                &&& self.fit(s.made)
                &&& (self.fits)(s.need)
                &&& s.made.len() == made.len()
                &&& forall|i: int|
                    0 <= i < made.len() ==> (#[trigger] s.made[i]).material == made[i].material
                        && s.made[i].step == made[i].step && (self.of)(s.made[i].rate) <= (
                    self.of)(made[i].rate)
                &&& weigh(s.made, w) + weigh(s.flows, self.out_of(step, key)) == weigh(made, w)
                    + weigh(flows, self.out_of(step, key))
                &&& weigh(s.flows, self.into(step, key)) + w(Share { rate: s.need, ..use_of })
                    == weigh(flows, self.into(step, key)) + w(use_of)
                &&& (self.of)(s.need) > 0 ==> forall|i: int|
                    0 <= i < k && key_text((#[trigger] s.made[i]).material) == key_text(
                        use_of.material,
                    ) ==> (self.of)(s.made[i].rate) == 0
            }),
        decreases k,
    {
        if k > 0 {
            self.serving_balances(ar, made, use_of, flows, k - 1, step, key);
            let s = serve_to(ar, made, use_of, flows, k - 1);
            let t = serve_to(ar, made, use_of, flows, k);
            let share = s.made[k - 1];
            let eps = crate::planner::tree::eps(ar);
            assert((self.fits)(share.rate));
            if !(ar.le_spec(s.need, eps) || key_text(share.material) != key_text(use_of.material)
                || ar.le_spec(share.rate, eps)) {
                let take = ar.least_spec(s.need, share.rate);
                let rest = Share { rate: ar.minus_spec(share.rate, take), ..share };
                let flow = FlowText {
                    material: use_of.material,
                    rate_per_min: take,
                    from_step: Some(share.step),
                    to_step: Some(use_of.step),
                };
                weigh_update(s.made, k - 1, rest, self.at_step(step, key));
                weigh_push(s.flows, flow, self.out_of(step, key));
                weigh_push(s.flows, flow, self.into(step, key));
            }
        }
    }

    proof fn handing_balances<A: Arithmetic>(
        self,
        ar: A,
        made: Seq<Share>,
        uses: Seq<Share>,
        j: int,
        step: usize,
        key: KeyText,
    )
        requires
            self.measures(ar),
            self.fit(made),
            self.fit(uses),
            0 <= j <= uses.len(),
        ensures
            ({
                let h = hand_to(ar, made, uses, j);
                let w = self.at_step(step, key);
                &&& self.fit(h.made)
                &&& h.made.len() == made.len()
                &&& weigh(h.made, w) + weigh(h.flows, self.out_of(step, key)) == weigh(made, w)
                &&& weigh(uses.take(j), w) == weigh(h.flows, self.into(step, key)) + weigh(
                    h.raw,
                    self.into(step, key),
                )
                &&& forall|i: int, q: int|
                    0 <= i < h.raw.len() && 0 <= q < h.made.len() && key_text(
                        (#[trigger] h.raw[i]).material,
                    ) == key_text((#[trigger] h.made[q]).material) ==> (self.of)(h.made[q].rate)
                        == 0
            }),
        decreases j,
    {
        let w = self.at_step(step, key);
        if j > 0 {
            self.handing_balances(ar, made, uses, j - 1, step, key);
            let g = hand_to(ar, made, uses, j - 1);
            let h = hand_to(ar, made, uses, j);
            let u = uses[j - 1];
            self.serving_balances(ar, g.made, u, g.flows, g.made.len() as int, step, key);
            let s = serve_to(ar, g.made, u, g.flows, g.made.len() as int);
            assert(uses.take(j).drop_last() =~= uses.take(j - 1));
            assert(weigh(uses.take(j), w) == weigh(uses.take(j - 1), w) + w(u));
            if ar.lt_spec(crate::planner::tree::eps(ar), s.need) {
                let flow = FlowText {
                    material: u.material,
                    rate_per_min: s.need,
                    from_step: None,
                    to_step: Some(u.step),
                };
                weigh_push(g.raw, flow, self.into(step, key));
            }
            assert forall|i: int, q: int|
                0 <= i < h.raw.len() && 0 <= q < h.made.len() && key_text(
                    (#[trigger] h.raw[i]).material,
                ) == key_text((#[trigger] h.made[q]).material) implies (self.of)(h.made[q].rate)
                == 0 by {
                assert((self.fits)(s.made[q].rate));
                assert(s.made[q].material == g.made[q].material);
                if i < g.raw.len() {
                    assert(h.raw[i] == g.raw[i]);
                    assert((self.of)(g.made[q].rate) == 0);
                }
            }
        } else {
            assert(uses.take(0) =~= Seq::empty());
        }
    }

    proof fn ending_balances<A: Arithmetic>(
        self,
        ar: A,
        target: KeyText,
        asked: Scalar,
        flows: Seq<FlowText>,
        left: Seq<Share>,
        k: int,
        step: usize,
        key: KeyText,
    )
        requires
            self.measures(ar),
            self.fit(left),
            (self.fits)(asked),
            0 <= k <= left.len(),
        ensures
            ({
                let e = end_to(ar, target, asked, flows, left, k);
                &&& (self.fits)(e.asked)
                &&& weigh(left.take(k), self.at_step(step, key)) + weigh(
                    flows,
                    self.out_of(step, key),
                ) == weigh(e.flows, self.out_of(step, key)) + weigh(
                    e.byproducts,
                    self.out_of(step, key),
                )
                &&& weigh(e.flows, self.into(step, key)) == weigh(flows, self.into(step, key))
                &&& forall|i: int|
                    0 <= i < e.byproducts.len() ==> self.is_left(
                        left,
                        key_text((#[trigger] e.byproducts[i]).material),
                    )
            }),
        decreases k,
    {
        let w = self.at_step(step, key);
        let out = self.out_of(step, key);
        if k > 0 {
            self.ending_balances(ar, target, asked, flows, left, k - 1, step, key);
            let e = end_to(ar, target, asked, flows, left, k - 1);
            let d = end_to(ar, target, asked, flows, left, k);
            let share = left[k - 1];
            let eps = crate::planner::tree::eps(ar);
            assert((self.fits)(share.rate));
            assert(left.take(k).drop_last() =~= left.take(k - 1));
            assert(weigh(left.take(k), w) == weigh(left.take(k - 1), w) + w(share));
            if !ar.le_spec(share.rate, eps) {
                assert(self.is_left(left, key_text(share.material))) by {
                    assert(left[k - 1] == share);
                }
                if key_text(share.material) == target && ar.lt_spec(eps, e.asked) {
                    let given = ar.least_spec(share.rate, e.asked);
                    let excess = ar.minus_spec(share.rate, given);
                    let flow = crate::process::outflow(share, given);
                    weigh_push(e.flows, flow, out);
                    weigh_push(e.flows, flow, self.into(step, key));
                    weigh_push(e.byproducts, crate::process::outflow(share, excess), out);
                } else {
                    weigh_push(e.byproducts, crate::process::outflow(share, share.rate), out);
                }
            }
            assert forall|i: int| 0 <= i < d.byproducts.len() implies self.is_left(
                left,
                key_text((#[trigger] d.byproducts[i]).material),
            ) by {
                if i < e.byproducts.len() {
                    assert(d.byproducts[i] == e.byproducts[i]);
                }
            }
        } else {
            assert(left.take(0) =~= Seq::empty());
        }
    }

    /// Something of the material is left.
    spec fn is_left(self, left: Seq<Share>, key: KeyText) -> bool {
        exists|q: int|
            0 <= q < left.len() && key_text((#[trigger] left[q]).material) == key && (self.of)(
                left[q].rate,
            ) > 0
    }

    /// The rates of a plan are amounts within range.
    pub open spec fn fits_plan(self, plan: Plan) -> bool {
        let steps = crate::plan::step_texts(plan.recipes@);
        &&& (self.fits)(plan.rate_per_min)
        &&& self.fit(made_by(steps, steps.len() as int))
        &&& self.fit(used_by(steps, steps.len() as int))
    }

    proof fn plan_spreads<A: Arithmetic>(self, ar: A, plan: Plan, step: usize, key: KeyText)
        requires
            self.measures(ar),
            self.fits_plan(plan),
            crate::process::finds_room(ar, plan),
        ensures
            ({
                let steps = crate::plan::step_texts(plan.recipes@);
                let h = crate::process::handed(ar, plan);
                let e = crate::process::ended(ar, plan);
                let w = self.at_step(step, key);
                let out = self.out_of(step, key);
                let into = self.into(step, key);
                &&& weigh(made_by(steps, steps.len() as int), w) == weigh(e.flows, out) + weigh(
                    e.byproducts,
                    out,
                )
                &&& weigh(used_by(steps, steps.len() as int), w) == weigh(e.flows, into) + weigh(
                    h.raw,
                    into,
                )
                &&& forall|i: int, j: int|
                    0 <= i < h.raw.len() && 0 <= j < e.byproducts.len() ==> key_text(
                        (#[trigger] h.raw[i]).material,
                    ) != key_text((#[trigger] e.byproducts[j]).material)
            }),
    {
        let steps = crate::plan::step_texts(plan.recipes@);
        let n = steps.len() as int;
        let w = self.at_step(step, key);
        let used = used_by(steps, n);
        let made = made_by(steps, n);
        crate::process::share_order_orders(used);
        weigh_sorted(used, crate::process::share_order(used), w);
        let uses = crate::process::uses_in(plan);
        assert forall|i: int| 0 <= i < uses.len() implies (self.fits)((#[trigger] uses[i]).rate) by {
            assert(used.contains(uses[i]));
            let k = choose|k: int| 0 <= k < used.len() && used[k] == uses[i];
            assert((self.fits)(used[k].rate));
        }
        assert(uses.take(uses.len() as int) =~= uses);
        self.handing_balances(ar, made, uses, uses.len() as int, step, key);
        let h = crate::process::handed(ar, plan);
        crate::process::key_order_orders(h.made);
        let left = crate::order::sorted(h.made, crate::process::key_order(h.made));
        weigh_sorted(h.made, crate::process::key_order(h.made), w);
        assert forall|i: int| 0 <= i < left.len() implies (self.fits)((#[trigger] left[i]).rate) by {
            assert(h.made.contains(left[i]));
            let k = choose|k: int| 0 <= k < h.made.len() && h.made[k] == left[i];
            assert((self.fits)(h.made[k].rate));
        }
        assert(left.take(left.len() as int) =~= left);
        self.ending_balances(
            ar,
            key_text(plan.target@),
            plan.rate_per_min,
            h.flows,
            left,
            left.len() as int,
            step,
            key,
        );
        let e = crate::process::ended(ar, plan);
        assert forall|i: int, j: int|
            0 <= i < h.raw.len() && 0 <= j < e.byproducts.len() implies key_text(
            (#[trigger] h.raw[i]).material,
        ) != key_text((#[trigger] e.byproducts[j]).material) by {
            let c = key_text(e.byproducts[j].material);
            assert(self.is_left(left, c));
            let q = choose|q: int|
                0 <= q < left.len() && key_text((#[trigger] left[q]).material) == c && (self.of)(
                    left[q].rate,
                ) > 0;
            assert(h.made.contains(left[q]));
            let k = choose|k: int| 0 <= k < h.made.len() && h.made[k] == left[q];
            if key_text(h.raw[i].material) == c {
                assert((self.of)(h.made[k].rate) == 0);
            }
        }
    }
}

/// What every step of a process makes of a material flows out of it, to other
/// steps, as the target or as a by-product; and what it uses flows into it, from
/// other steps or from outside.
pub proof fn steps_balance<A: Arithmetic>(
    ar: A,
    m: Measure,
    plan: Plan,
    p: ProcessGraph,
    step: usize,
    key: KeyText,
)
    requires
        m.measures(ar),
        m.fits_plan(plan),
        shows_plan(ar, plan, p),
    ensures
        ({
            let steps = crate::plan::step_texts(plan.recipes@);
            &&& weigh(made_by(steps, steps.len() as int), m.at_step(step, key)) == weigh(
                flow_texts(p.flows@),
                m.out_of(step, key),
            ) + weigh(flow_texts(p.byproducts@), m.out_of(step, key))
            &&& weigh(used_by(steps, steps.len() as int), m.at_step(step, key)) == weigh(
                flow_texts(p.flows@),
                m.into(step, key),
            ) + weigh(flow_texts(p.raw_inputs@), m.into(step, key))
        }),
{
    m.plan_spreads(ar, plan, step, key);
    let h = crate::process::handed(ar, plan);
    let e = crate::process::ended(ar, plan);
    ar.total_before_orders();
    weigh_sorted(e.flows, crate::process::flow_order(ar, e.flows), m.out_of(step, key));
    weigh_sorted(e.flows, crate::process::flow_order(ar, e.flows), m.into(step, key));
    weigh_sorted(h.raw, crate::process::flow_order(ar, h.raw), m.into(step, key));
    weigh_sorted(
        e.byproducts,
        crate::process::flow_order(ar, e.byproducts),
        m.out_of(step, key),
    );
}

/// No material of a process is both brought in and left over.
pub proof fn nothing_is_brought_and_left<A: Arithmetic>(
    ar: A,
    m: Measure,
    plan: Plan,
    p: ProcessGraph,
    i: int,
    j: int,
)
    requires
        m.measures(ar),
        m.fits_plan(plan),
        shows_plan(ar, plan, p),
        0 <= i < p.raw_inputs@.len(),
        0 <= j < p.byproducts@.len(),
    ensures
        key_text(p.raw_inputs@[i].material@) != key_text(p.byproducts@[j].material@),
{
    m.plan_spreads(ar, plan, 0, key_text(plan.target@));
    let h = crate::process::handed(ar, plan);
    let e = crate::process::ended(ar, plan);
    ar.total_before_orders();
    let none = |f: FlowText| 0int;
    weigh_sorted(h.raw, crate::process::flow_order(ar, h.raw), none);
    weigh_sorted(e.byproducts, crate::process::flow_order(ar, e.byproducts), none);
    let a = flow_texts(p.raw_inputs@);
    let b = flow_texts(p.byproducts@);
    assert(h.raw.contains(a[i]));
    assert(e.byproducts.contains(b[j]));
    let x = choose|x: int| 0 <= x < h.raw.len() && h.raw[x] == a[i];
    let y = choose|y: int| 0 <= y < e.byproducts.len() && e.byproducts[y] == b[j];
    assert(key_text(h.raw[x].material) != key_text(e.byproducts[y].material));
    assert(a[i] == p.raw_inputs@[i]@);
    assert(b[j] == p.byproducts@[j]@);
}

} // verus!

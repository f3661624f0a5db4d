//! What the flows of a process mean.
use vstd::prelude::*;

use crate::balance::{weigh, Measure};
use crate::plan::{EntryText, StepText};
use crate::process::{end_to, key_text, made_by, shares_of, used_by, FlowText, KeyText, Share};
use crate::program::{total, total_step};
use crate::scalar::{Arithmetic, Scalar};

verus! {

/// What a list of entries names of a material.
pub open spec fn named(m: Measure, entries: Seq<EntryText>, key: KeyText) -> spec_fn(int) -> int {
    |k: int|
        if key_text(entries[k].material) == key {
            (m.of)(entries[k].rate_per_min)
        } else {
            0
        }
}

proof fn weigh_both(a: Seq<Share>, b: Seq<Share>, w: spec_fn(Share) -> int)
    ensures
        weigh(a + b, w) == weigh(a, w) + weigh(b, w),
    decreases b.len(),
{
    if b.len() == 0 {
        assert(a + b =~= a);
    } else {
        assert((a + b).drop_last() =~= a + b.drop_last());
        weigh_both(a, b.drop_last(), w);
    }
}

proof fn shares_weigh(m: Measure, at: usize, entries: Seq<EntryText>, k: int, step: usize, key: KeyText)
    requires
        0 <= k <= entries.len(),
    ensures
        weigh(shares_of(at, entries, k), m.at_step(step, key)) == if at == step {
            total(k as nat, named(m, entries, key))
        } else {
            0
        },
    decreases k,
{
    if k > 0 {
        shares_weigh(m, at, entries, k - 1, step, key);
        total_step(k as nat, named(m, entries, key));
        assert(shares_of(at, entries, k).drop_last() =~= shares_of(at, entries, k - 1));
    }
}

/// What is made at a step is what the step gives.
pub proof fn steps_make_outputs(m: Measure, steps: Seq<StepText>, n: int, step: usize, key: KeyText)
    requires
        0 <= n <= steps.len() <= usize::MAX,
    ensures
        weigh(made_by(steps, n), m.at_step(step, key)) == if step < n {
            total(
                steps[step as int].outputs.len(),
                named(m, steps[step as int].outputs, key),
            )
        } else {
            0
        },
    decreases n,
{
    if n > 0 {
        steps_make_outputs(m, steps, n - 1, step, key);
        let entries = steps[n - 1].outputs;
        shares_weigh(m, (n - 1) as usize, entries, entries.len() as int, step, key);
        weigh_both(
            made_by(steps, n - 1),
            shares_of((n - 1) as usize, entries, entries.len() as int),
            m.at_step(step, key),
        );
    }
}

/// What is used at a step is what the step takes.
pub proof fn steps_use_inputs(m: Measure, steps: Seq<StepText>, n: int, step: usize, key: KeyText)
    requires
        0 <= n <= steps.len() <= usize::MAX,
    ensures
        weigh(used_by(steps, n), m.at_step(step, key)) == if step < n {
            total(
                steps[step as int].inputs.len(),
                named(m, steps[step as int].inputs, key),
            )
        } else {
            0
        },
    decreases n,
{
    if n > 0 {
        steps_use_inputs(m, steps, n - 1, step, key);
        let entries = steps[n - 1].inputs;
        shares_weigh(m, (n - 1) as usize, entries, entries.len() as int, step, key);
        weigh_both(
            used_by(steps, n - 1),
            shares_of((n - 1) as usize, entries, entries.len() as int),
            m.at_step(step, key),
        );
    }
}

/// What flows out of the process as the target.
pub open spec fn delivered(m: Measure, target: KeyText) -> spec_fn(FlowText) -> int {
    |f: FlowText|
        if f.to_step is None && key_text(f.material) == target {
            (m.of)(f.rate_per_min)
        } else {
            0
        }
}

/// What is left goes out as the target until what is asked for is met: what is
/// delivered and what is still asked for come to what was asked for, and as long as
/// something is asked for, none of the target is left over.
pub proof fn target_comes_first<A: Arithmetic>(
    ar: A,
    m: Measure,
    target: KeyText,
    asked: Scalar,
    flows: Seq<FlowText>,
    left: Seq<Share>,
    k: int,
)
    requires
        m.measures(ar),
        (m.fits)(asked),
        0 <= k <= left.len(),
        forall|i: int| 0 <= i < left.len() ==> (m.fits)((#[trigger] left[i]).rate),
    ensures
        ({
            let e = end_to(ar, target, asked, flows, left, k);
            &&& (m.fits)(e.asked)
            &&& weigh(e.flows, delivered(m, target)) - weigh(flows, delivered(m, target)) + (m.of)(
                e.asked,
            ) == (m.of)(asked)
            &&& (m.of)(e.asked) > 0 ==> forall|i: int|
                0 <= i < e.byproducts.len() ==> key_text((#[trigger] e.byproducts[i]).material)
                    != target
        }),
    decreases k,
{
    if k > 0 {
        target_comes_first(ar, m, target, asked, flows, left, k - 1);
        let before = end_to(ar, target, asked, flows, left, k - 1);
        let now = end_to(ar, target, asked, flows, left, k);
        let share = left[k - 1];
        assert((m.fits)(left[k - 1].rate));
        if now.flows.len() > before.flows.len() {
            assert(now.flows.drop_last() =~= before.flows);
        }
        let out = ar.least_spec(share.rate, before.asked);
        assert((m.fits)(out));
        if (m.of)(now.asked) > 0 {
            assert forall|i: int| 0 <= i < now.byproducts.len() implies key_text(
                (#[trigger] now.byproducts[i]).material,
            ) != target by {
                if i < before.byproducts.len() {
                    assert(now.byproducts[i] == before.byproducts[i]);
                }
            }
        }
    }
}

/// The greatest flows are listed first.
pub proof fn great_flows_first<A: Arithmetic>(ar: A, v: Seq<FlowText>, i: int, j: int)
    requires
        v.len() <= usize::MAX,
        0 <= i < j < v.len(),
    ensures
        ({
            let r = crate::order::sorted(v, crate::process::flow_order(ar, v));
            &&& r.len() == v.len()
            &&& !ar.total_before_spec(r[i].rate_per_min, r[j].rate_per_min)
        }),
{
    let before = crate::process::flow_order(ar, v);
    let n = v.len() as int;
    ar.total_before_orders();
    assert(crate::order::orders(before, n));
    crate::order::stable_order_exists(before, n);
    let r = crate::order::sorted(v, before);
    assert(crate::order::sorted_by(v, before, r)) by {
        let p = choose|p: Seq<usize>| #[trigger] crate::order::stable_order(before, n, p);
        assert(r == crate::order::listed(v, p));
    }
    crate::order::sorted_by_permutes(v, before, r);
    assert(crate::order::comes_ahead(v, before, r[i], r[j]));
    let (x, y) = choose|x: int, y: int|
        0 <= x < n && 0 <= y < n && #[trigger] v[x] == r[i] && #[trigger] v[y] == r[j]
            && crate::order::ahead(before, x, y);
    assert(before(x, y) || !before(y, x));
}

} // verus!

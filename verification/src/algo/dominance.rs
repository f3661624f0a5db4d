//! What it means that a recipe dominates another.
use vstd::prelude::*;

use crate::algo::prune::{
    ascending, compared, covered_at, dominated_among, dominated_times, dominates_spec, dominators,
    entered, exceeded_at, inputs_per_unit, inputs_to, slack,
};
use crate::graph::KnowledgeGraph;
use crate::model::{MaterialId, RecipeId, Slot};
use crate::program::{total, total_step};
use crate::scalar::{Arithmetic, Scalar};
use crate::scale::{floors, Scale};
use crate::util::{cheapest_spec, mat_norm_spec};

verus! {

/// How much of a material a list names, in parts.
pub open spec fn needs(w: Scale, list: Seq<(MaterialId, Scalar)>, m: MaterialId) -> int
    decreases list.len(),
{
    if list.len() == 0 {
        0
    } else {
        needs(w, list.drop_last(), m) + if list.last().0 == m {
            (w.of)(list.last().1)
        } else {
            0
        }
    }
}

/// Amounts of a list are within range, and so is any sum of it with `q`.
pub open spec fn takes_on<A: Arithmetic>(
    w: Scale,
    ar: A,
    list: Seq<(MaterialId, Scalar)>,
    q: Scalar,
) -> bool {
    (w.fits)(q) && forall|i: int|
        0 <= i < list.len() ==> (w.fits)((#[trigger] list[i]).1) && (w.fits)(
            ar.plus_spec(list[i].1, q),
        )
}

proof fn entering_adds<A: Arithmetic>(
    w: Scale,
    ar: A,
    list: Seq<(MaterialId, Scalar)>,
    m: MaterialId,
    q: Scalar,
    x: MaterialId,
)
    requires
        w.measures(ar),
        takes_on(w, ar, list, q),
    ensures
        needs(w, entered(ar, list, m, q), x) == needs(w, list, x) + if x == m {
            (w.of)(q)
        } else {
            0
        },
    decreases list.len(),
{
    let now = entered(ar, list, m, q);
    if list.len() == 0 {
        assert(now.drop_last() =~= list);
    } else {
        let last = list.last();
        assert(last == list[list.len() - 1]);
        let rest = list.drop_last();
        assert forall|i: int| 0 <= i < rest.len() implies (w.fits)((#[trigger] rest[i]).1) && (
        w.fits)(ar.plus_spec(rest[i].1, q)) by {
            assert(rest[i] == list[i]);
        }
        entering_adds(w, ar, rest, m, q, x);
        if last.0 == m {
            assert(now.drop_last() =~= rest);
        } else if last.0 < m {
            assert(now.drop_last() =~= list);
        } else {
            assert(now.drop_last() =~= entered(ar, rest, m, q));
        }
    }
}

/// What a slot takes of `x` for one of the product, of which an operation makes `qn`.
pub open spec fn slot_needs<A: Arithmetic>(
    w: Scale,
    ar: A,
    g: KnowledgeGraph,
    unit_cost: Seq<Scalar>,
    slot: Slot,
    qn: Scalar,
    x: MaterialId,
) -> int {
    match cheapest_spec(ar, g, unit_cost, None, slot) {
        Some((m, q)) => if m == x {
            (w.of)(ar.over_spec(mat_norm_spec(ar, g, m, q), qn))
        } else {
            0
        },
        None => 0,
    }
}

pub open spec fn slot_parts<A: Arithmetic>(
    w: Scale,
    ar: A,
    g: KnowledgeGraph,
    unit_cost: Seq<Scalar>,
    slots: Seq<Slot>,
    qn: Scalar,
    x: MaterialId,
) -> spec_fn(int) -> int {
    |s: int| slot_needs(w, ar, g, unit_cost, slots[s], qn, x)
}

/// For one of its product a recipe needs what its slots take, each of its cheapest
/// candidate: the quantity divided by the quantity of the product.
pub proof fn inputs_are_needed<A: Arithmetic>(
    w: Scale,
    ar: A,
    g: KnowledgeGraph,
    unit_cost: Seq<Scalar>,
    slots: Seq<Slot>,
    qn: Scalar,
    n: int,
    x: MaterialId,
)
    requires
        w.measures(ar),
        0 <= n <= slots.len(),
        forall|s: int|
            0 <= s < slots.len() ==> (cheapest_spec(
                ar,
                g,
                unit_cost,
                None,
                #[trigger] slots[s],
            ) matches Some((m, q)) ==> takes_on(
                w,
                ar,
                inputs_to(ar, g, unit_cost, slots, qn, s),
                ar.over_spec(mat_norm_spec(ar, g, m, q), qn),
            )),
    ensures
        needs(w, inputs_to(ar, g, unit_cost, slots, qn, n), x) == total(
            n as nat,
            slot_parts(w, ar, g, unit_cost, slots, qn, x),
        ),
    decreases n,
{
    if n > 0 {
        inputs_are_needed(w, ar, g, unit_cost, slots, qn, n - 1, x);
        total_step(n as nat, slot_parts(w, ar, g, unit_cost, slots, qn, x));
        let rest = inputs_to(ar, g, unit_cost, slots, qn, n - 1);
        if let Some((m, q)) = cheapest_spec(ar, g, unit_cost, None, slots[n - 1]) {
            entering_adds(
                w,
                ar,
                rest,
                m,
                ar.over_spec(mat_norm_spec(ar, g, m, q), qn),
                x,
            );
        }
    }
}

/// What a slot takes for one of the product.
pub proof fn shares_are_quotients<A: Arithmetic>(
    w: Scale,
    ar: A,
    g: KnowledgeGraph,
    m: MaterialId,
    q: u64,
    qn: Scalar,
)
    requires
        w.measures(ar),
        crate::prices::quantity_fits(w, ar, g, m, q),
        (w.fits)(qn),
        (w.of)(qn) > 0,
        (w.fits)(ar.over_spec(mat_norm_spec(ar, g, m, q), qn)),
    ensures
        exists|n: int| #[trigger]
            crate::prices::counts_for(w, g, m, q, n) && floors(
                (w.of)(ar.over_spec(mat_norm_spec(ar, g, m, q), qn)),
                n * w.unit,
                (w.of)(qn),
            ),
{
    crate::prices::quantities_count(w, ar, g, m, q);
    assert(crate::prices::counts_for(w, g, m, q, (w.of)(mat_norm_spec(ar, g, m, q))));
}

/// The amounts of two lists are within range and more than nothing, each material
/// stands once, and the slack of a comparison has no part.
pub open spec fn comparable<A: Arithmetic>(
    w: Scale,
    ar: A,
    a: Seq<(MaterialId, Scalar)>,
    b: Seq<(MaterialId, Scalar)>,
) -> bool {
    &&& ascending(a) && ascending(b)
    &&& (w.fits)(slack(ar)) && (w.of)(slack(ar)) == 0
    &&& forall|i: int|
        0 <= i < a.len() ==> (w.fits)((#[trigger] a[i]).1) && (w.of)(a[i].1) > 0
    &&& forall|i: int|
        0 <= i < b.len() ==> (w.fits)((#[trigger] b[i]).1) && (w.of)(b[i].1) > 0 && (w.fits)(
            ar.plus_spec(b[i].1, slack(ar)),
        ) && (w.fits)(ar.minus_spec(b[i].1, slack(ar)))
}

proof fn needs_none(w: Scale, list: Seq<(MaterialId, Scalar)>, m: MaterialId)
    requires
        forall|i: int| 0 <= i < list.len() ==> (#[trigger] list[i]).0 != m,
    ensures
        needs(w, list, m) == 0,
    decreases list.len(),
{
    if list.len() > 0 {
        assert(list[list.len() - 1].0 != m);
        assert forall|i: int| 0 <= i < list.drop_last().len() implies (
        #[trigger] list.drop_last()[i]).0 != m by {
            assert(list[i].0 != m);
        }
        needs_none(w, list.drop_last(), m);
    }
}

proof fn needs_at(w: Scale, list: Seq<(MaterialId, Scalar)>, k: int)
    requires
        ascending(list),
        0 <= k < list.len(),
    ensures
        needs(w, list, list[k].0) == (w.of)(list[k].1),
    decreases list.len(),
{
    let rest = list.drop_last();
    let m = list[k].0;
    assert(forall|i: int| 0 <= i < rest.len() ==> rest[i] == list[i]);
    if k == list.len() - 1 {
        assert forall|i: int| 0 <= i < rest.len() implies (#[trigger] rest[i]).0 != m by {
            assert(list[i].0 < list[k].0);
        }
        needs_none(w, rest, m);
    } else {
        assert(ascending(rest));
        needs_at(w, rest, k);
        assert(list[k].0 < list[list.len() - 1].0);
    }
}

/// A recipe that dominates another needs no more of anything, and less of something.
pub proof fn dominance_means<A: Arithmetic>(
    w: Scale,
    ar: A,
    a: Seq<(MaterialId, Scalar)>,
    b: Seq<(MaterialId, Scalar)>,
)
    requires
        w.measures(ar),
        comparable(w, ar, a, b),
    ensures
        dominates_spec(ar, a, b) ==> (forall|m: MaterialId| #[trigger]
            needs(w, a, m) <= needs(w, b, m)) && (exists|m: MaterialId| #[trigger]
            needs(w, a, m) < needs(w, b, m)),
{
    if dominates_spec(ar, a, b) {
        assert forall|m: MaterialId| #[trigger] needs(w, a, m) <= needs(w, b, m) by {
            never_negative(w, b, m);
            if exists|i: int| 0 <= i < a.len() && (#[trigger] a[i]).0 == m {
                let i = choose|i: int| 0 <= i < a.len() && (#[trigger] a[i]).0 == m;
                needs_at(w, a, i);
                assert(covered_at(ar, a, b, i));
                let j = choose|j: int|
                    0 <= j < b.len() && (#[trigger] b[j]).0 == a[i].0 && !ar.lt_spec(
                        ar.plus_spec(b[j].1, slack(ar)),
                        a[i].1,
                    );
                needs_at(w, b, j);
            } else {
                needs_none(w, a, m);
            }
        }
        let j = choose|j: int| 0 <= j < b.len() && #[trigger] exceeded_at(ar, a, b, j);
        let m = b[j].0;
        needs_at(w, b, j);
        if exists|i: int| 0 <= i < a.len() && (#[trigger] a[i]).0 == m {
            let i = choose|i: int| 0 <= i < a.len() && (#[trigger] a[i]).0 == m;
            needs_at(w, a, i);
        } else {
            needs_none(w, a, m);
        }
        assert(needs(w, a, m) < needs(w, b, m));
    }
}

/// A recipe that needs no more of anything, names nothing that the other does not,
/// and needs less of something, dominates it.
pub proof fn less_dominates<A: Arithmetic>(
    w: Scale,
    ar: A,
    a: Seq<(MaterialId, Scalar)>,
    b: Seq<(MaterialId, Scalar)>,
    less: MaterialId,
)
    requires
        w.measures(ar),
        comparable(w, ar, a, b),
        forall|m: MaterialId| #[trigger] needs(w, a, m) <= needs(w, b, m),
        needs(w, a, less) < needs(w, b, less),
    ensures
        dominates_spec(ar, a, b),
{
    assert forall|i: int| 0 <= i < a.len() implies #[trigger] covered_at(ar, a, b, i) by {
        let m = a[i].0;
        needs_at(w, a, i);
        assert(needs(w, a, m) <= needs(w, b, m));
        if forall|j: int| 0 <= j < b.len() ==> (#[trigger] b[j]).0 != m {
            needs_none(w, b, m);
        }
        let j = choose|j: int| 0 <= j < b.len() && (#[trigger] b[j]).0 == m;
        needs_at(w, b, j);
    }
    never_negative(w, a, less);
    if forall|j: int| 0 <= j < b.len() ==> (#[trigger] b[j]).0 != less {
        needs_none(w, b, less);
    }
    let j = choose|j: int| 0 <= j < b.len() && (#[trigger] b[j]).0 == less;
    needs_at(w, b, j);
    assert forall|i: int| 0 <= i < a.len() && (#[trigger] a[i]).0 == b[j].0 implies ar.lt_spec(
        a[i].1,
        ar.minus_spec(b[j].1, slack(ar)),
    ) by {
        needs_at(w, a, i);
    }
    assert(exceeded_at(ar, a, b, j));
}

proof fn never_negative(w: Scale, list: Seq<(MaterialId, Scalar)>, m: MaterialId)
    requires
        forall|i: int| 0 <= i < list.len() ==> (w.of)((#[trigger] list[i]).1) > 0,
    ensures
        needs(w, list, m) >= 0,
    decreases list.len(),
{
    if list.len() > 0 {
        assert((w.of)(list[list.len() - 1].1) > 0);
        assert forall|i: int| 0 <= i < list.drop_last().len() implies (w.of)(
            (#[trigger] list.drop_last()[i]).1,
        ) > 0 by {
            assert((w.of)(list[i].1) > 0);
        }
        never_negative(w, list.drop_last(), m);
    }
}

/// No two recipes dominate each other, so that one is left that no other dominates.
pub proof fn dominance_goes_one_way<A: Arithmetic>(
    w: Scale,
    ar: A,
    a: Seq<(MaterialId, Scalar)>,
    b: Seq<(MaterialId, Scalar)>,
)
    requires
        w.measures(ar),
        comparable(w, ar, a, b),
        comparable(w, ar, b, a),
    ensures
        !(dominates_spec(ar, a, b) && dominates_spec(ar, b, a)),
        !dominates_spec(ar, a, a),
{
    dominance_means(w, ar, a, b);
    dominance_means(w, ar, b, a);
    dominance_means(w, ar, a, a);
    if dominates_spec(ar, a, b) && dominates_spec(ar, b, a) {
        let m = choose|m: MaterialId| #[trigger] needs(w, a, m) < needs(w, b, m);
        assert(needs(w, b, m) <= needs(w, a, m));
    }
}

/// The recipes that are compared are the producers of which it is known what they
/// need, each once.
pub proof fn producers_are_compared<A: Arithmetic>(
    ar: A,
    g: KnowledgeGraph,
    unit_cost: Seq<Scalar>,
    m: MaterialId,
    n: int,
)
    requires
        g.wf(),
        m < g.m_count(),
        0 <= n <= g.producers@[m as int]@.len(),
    ensures
        ({
            let all = compared(ar, g, unit_cost, m, n);
            &&& forall|k: int|
                #![trigger g.producers@[m as int]@[k]]
                0 <= k < n ==> (inputs_per_unit(
                    ar,
                    g,
                    unit_cost,
                    g.producers@[m as int]@[k],
                    m,
                ) matches Some(v) ==> all.contains((g.producers@[m as int]@[k], v)))
            &&& forall|i: int|
                0 <= i < all.len() ==> inputs_per_unit(ar, g, unit_cost, (#[trigger] all[i]).0, m)
                    == Some(all[i].1) && (n > 0 && all[i].0 <= g.producers@[m as int]@[n - 1])
            &&& forall|i: int, j: int|
                0 <= i < j < all.len() ==> (#[trigger] all[i]).0 < (#[trigger] all[j]).0
        }),
    decreases n,
{
    let p = |r: int| g.produces(r, m as int as u32);
    assert(crate::graph::lists(g.producers@[m as int]@, g.r_count(), p));
    if n > 0 {
        producers_are_compared(ar, g, unit_cost, m, n - 1);
        let rest = compared(ar, g, unit_cost, m, n - 1);
        let all = compared(ar, g, unit_cost, m, n);
        assert forall|k: int|
            #![trigger g.producers@[m as int]@[k]]
            0 <= k < n implies (inputs_per_unit(
            ar,
            g,
            unit_cost,
            g.producers@[m as int]@[k],
            m,
        ) matches Some(v) ==> all.contains((g.producers@[m as int]@[k], v))) by {
            if let Some(v) = inputs_per_unit(ar, g, unit_cost, g.producers@[m as int]@[k], m) {
                let e = (g.producers@[m as int]@[k], v);
                if k < n - 1 {
                    assert(rest.contains(e));
                    let i = choose|i: int| 0 <= i < rest.len() && rest[i] == e;
                    assert(all[i] == e);
                } else {
                    assert(all[rest.len() as int] == e);
                }
            }
        }
        if n > 1 {
            assert(g.producers@[m as int]@[n - 2] < g.producers@[m as int]@[n - 1]);
        }
    }
}

proof fn dominators_are<A: Arithmetic>(ar: A, specs: Seq<(RecipeId, Seq<(MaterialId, Scalar)>)>, j: int, n: int)
    requires
        0 <= n <= specs.len(),
    ensures
        dominators(ar, specs, j, n) > 0 <==> exists|i: int|
            0 <= i < n && i != j && dominates_spec(ar, (#[trigger] specs[i]).1, specs[j].1),
    decreases n,
{
    if n > 0 {
        dominators_are(ar, specs, j, n - 1);
    }
}

proof fn among_is_at<A: Arithmetic>(
    ar: A,
    specs: Seq<(RecipeId, Seq<(MaterialId, Scalar)>)>,
    j: int,
    k: int,
)
    requires
        0 <= j < k <= specs.len(),
        forall|a: int, b: int|
            0 <= a < b < specs.len() ==> (#[trigger] specs[a]).0 < (#[trigger] specs[b]).0,
    ensures
        dominated_among(ar, specs, specs[j].0, k) == dominators(
            ar,
            specs,
            j,
            specs.len() as int,
        ),
    decreases k,
{
    if j < k - 1 {
        assert(specs[j].0 < specs[k - 1].0);
        among_is_at(ar, specs, j, k - 1);
    }
}

/// A recipe is dominated for a product exactly when another recipe for it, of those
/// that are compared, dominates it. Products of one recipe, or of more than 256, are
/// not compared.
pub proof fn dominated_by_another<A: Arithmetic>(
    ar: A,
    g: KnowledgeGraph,
    unit_cost: Seq<Scalar>,
    m: MaterialId,
    j: int,
)
    requires
        g.wf(),
        m < g.m_count(),
        2 <= g.producers@[m as int]@.len() <= 256,
        0 <= j < compared(
            ar,
            g,
            unit_cost,
            m,
            g.producers@[m as int]@.len() as int,
        ).len(),
    ensures
        ({
            let specs = compared(ar, g, unit_cost, m, g.producers@[m as int]@.len() as int);
            dominated_times(ar, g, unit_cost, specs[j].0, m) > 0 <==> exists|i: int|
                0 <= i < specs.len() && i != j && dominates_spec(
                    ar,
                    (#[trigger] specs[i]).1,
                    specs[j].1,
                )
        }),
{
    let n = g.producers@[m as int]@.len() as int;
    let specs = compared(ar, g, unit_cost, m, n);
    producers_are_compared(ar, g, unit_cost, m, n);
    among_is_at(ar, specs, j, specs.len() as int);
    dominators_are(ar, specs, j, specs.len() as int);
}

} // verus!

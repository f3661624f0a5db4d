//! Dominance: of two recipes for a product, one that needs no more of any input
//! and less of some input dominates the other, which can then be no better.
//!
//! Dominance is noted by product: a recipe may be dominated for one product and
//! still be the only one for another.
use vstd::prelude::*;

use crate::graph::KnowledgeGraph;
use crate::model::{MaterialId, RecipeId, Slot};
use crate::scalar::{Arithmetic, Scalar};
use crate::util::{cheapest_alt, mat_norm_qty, output_qty_of};

verus! {

/// Inputs of a recipe per unit of a product, by ascending material.
pub type Inputs = Seq<(MaterialId, Scalar)>;

/// `q` more of material `m`.
pub open spec fn entered<A: Arithmetic>(ar: A, list: Inputs, m: MaterialId, q: Scalar) -> Inputs
    decreases list.len(),
{
    if list.len() == 0 {
        seq![(m, q)]
    } else if list.last().0 == m {
        list.drop_last().push((m, ar.plus_spec(list.last().1, q)))
    } else if list.last().0 < m {
        list.push((m, q))
    } else {
        entered(ar, list.drop_last(), m, q).push(list.last())
    }
}

/// Each material once, in ascending order.
pub open spec fn ascending(list: Inputs) -> bool {
    forall|a: int, b: int|
        0 <= a < b < list.len() ==> (#[trigger] list[a]).0 < (#[trigger] list[b]).0
}

proof fn entered_ascending<A: Arithmetic>(ar: A, list: Inputs, m: MaterialId, q: Scalar)
    requires
        ascending(list),
    ensures
        ascending(entered(ar, list, m, q)),
        forall|a: int|
            #![trigger entered(ar, list, m, q)[a]]
            0 <= a < entered(ar, list, m, q).len() ==> entered(ar, list, m, q)[a].0 == m || exists|
                b: int,
            | 0 <= b < list.len() && (#[trigger] list[b]).0 == entered(ar, list, m, q)[a].0,
    decreases list.len(),
{
    let r = entered(ar, list, m, q);
    if list.len() > 0 {
        if list.last().0 == m || list.last().0 < m {
            assert forall|a: int| #![trigger r[a]] 0 <= a < r.len() implies r[a].0 == m || exists|
                b: int,
            | 0 <= b < list.len() && (#[trigger] list[b]).0 == r[a].0 by {
                if a < list.len() {
                    assert(list[a].0 == r[a].0);
                }
            }
        } else {
            let short = list.drop_last();
            entered_ascending(ar, short, m, q);
            let e = entered(ar, short, m, q);
            assert forall|a: int| #![trigger r[a]] 0 <= a < r.len() implies r[a].0 == m || exists|
                b: int,
            | 0 <= b < list.len() && (#[trigger] list[b]).0 == r[a].0 by {
                if a < e.len() {
                    assert(r[a] == e[a]);
                    if e[a].0 != m {
                        let b = choose|b: int|
                            0 <= b < short.len() && (#[trigger] short[b]).0 == e[a].0;
                        assert(list[b].0 == r[a].0);
                    }
                } else {
                    assert(list[list.len() - 1].0 == r[a].0);
                }
            }
            assert forall|a: int, b: int| 0 <= a < b < r.len() implies (#[trigger] r[a]).0 < (
            #[trigger] r[b]).0 by {
                if b == e.len() {
                    assert(r[a] == e[a]);
                    if e[a].0 != m {
                        let c = choose|c: int|
                            0 <= c < short.len() && (#[trigger] short[c]).0 == e[a].0;
                        assert(list[c].0 < list[list.len() - 1].0);
                    }
                } else {
                    assert(e[a].0 < e[b].0);
                }
            }
        }
    }
}

/// Adds `q` of material `m` to a list.
fn enter<A: Arithmetic>(ar: &A, list: &mut Vec<(MaterialId, Scalar)>, m: MaterialId, q: Scalar)
    requires
        ascending(old(list)@),
    ensures
        final(list)@ == entered(*ar, old(list)@, m, q),
        ascending(final(list)@),
{
    let ghost start = list@;
    let mut i: usize = list.len();
    assert(start.take(i as int) =~= start);
    assert(start.skip(i as int) =~= Seq::<(MaterialId, Scalar)>::empty());
    assert(entered(*ar, start, m, q) =~= entered(*ar, start.take(i as int), m, q) + start.skip(
        i as int,
    ));
    while i > 0 && list[i - 1].0 > m
        invariant
            i <= list@.len(),
            list@ == start,
            entered(*ar, start, m, q) == entered(*ar, start.take(i as int), m, q) + start.skip(
                i as int,
            ),
        decreases i,
    {
        assert(start.take(i as int).drop_last() =~= start.take(i - 1));
        assert(start.skip(i - 1) =~= seq![start[i - 1]] + start.skip(i as int));
        assert(entered(*ar, start.take(i - 1), m, q).push(start[i - 1]) + start.skip(i as int)
            =~= entered(*ar, start.take(i - 1), m, q) + start.skip(i - 1));
        i -= 1;
    }
    proof {
        entered_ascending(*ar, start, m, q);
    }
    if i > 0 && list[i - 1].0 == m {
        let sum = ar.plus(list[i - 1].1, q);
        list[i - 1] = (m, sum);
        assert(list@ =~= start.take(i as int).drop_last().push((m, sum)) + start.skip(i as int));
    } else {
        list.insert(i, (m, q));
        assert(list@ =~= start.take(i as int).push((m, q)) + start.skip(i as int));
        if i == 0 {
            assert(start.take(0).push((m, q)) =~= seq![(m, q)]);
        }
    }
}

/// The inputs of the first `s` slots, the cheapest candidate of each, divided by
/// `qn`.
pub open spec fn inputs_to<A: Arithmetic>(
    ar: A,
    g: KnowledgeGraph,
    unit_cost: Seq<Scalar>,
    slots: Seq<Slot>,
    qn: Scalar,
    s: int,
) -> Inputs
    decreases s,
{
    if s <= 0 {
        Seq::empty()
    } else {
        let rest = inputs_to(ar, g, unit_cost, slots, qn, s - 1);
        match crate::util::cheapest_spec(ar, g, unit_cost, None, slots[s - 1]) {
            Some((m, q)) => entered(
                ar,
                rest,
                m,
                ar.over_spec(crate::util::mat_norm_spec(ar, g, m, q), qn),
            ),
            None => rest,
        }
    }
}

/// The inputs of recipe `r` per unit of its product `m`; nothing where the
/// recipe is not compared.
pub open spec fn inputs_per_unit<A: Arithmetic>(
    ar: A,
    g: KnowledgeGraph,
    unit_cost: Seq<Scalar>,
    r: RecipeId,
    m: MaterialId,
) -> Option<Inputs> {
    let node = g.recipes@[r as int];
    match crate::util::qty_in(node.outputs@, m) {
        Some(q) => {
            let qn = crate::util::mat_norm_spec(ar, g, m, q);
            if g.plannable@[r as int] && node.inputs@.len() > 0 && !ar.le_spec(
                qn,
                ar.ratio_spec(0, 1),
            ) {
                Some(inputs_to(ar, g, unit_cost, node.inputs@, qn, node.inputs@.len() as int))
            } else {
                None
            }
        },
        None => None,
    }
}

/// The recipes among the first `i` producers of `m` that are compared, each with
/// its inputs.
pub open spec fn compared<A: Arithmetic>(
    ar: A,
    g: KnowledgeGraph,
    unit_cost: Seq<Scalar>,
    m: MaterialId,
    i: int,
) -> Seq<(RecipeId, Inputs)>
    decreases i,
{
    if i <= 0 {
        Seq::empty()
    } else {
        let rest = compared(ar, g, unit_cost, m, i - 1);
        let r = g.producers@[m as int]@[i - 1];
        match inputs_per_unit(ar, g, unit_cost, r, m) {
            Some(v) => rest.push((r, v)),
            None => rest,
        }
    }
}

/// What is smaller by no more counts as equal.
pub open spec fn slack<A: Arithmetic>(ar: A) -> Scalar {
    ar.ratio_spec(1, 1_000_000_000_000)
}

/// Every input of `a` is an input of `b`, in no smaller quantity.
pub open spec fn covered<A: Arithmetic>(ar: A, a: Inputs, b: Inputs) -> bool {
    forall|i: int| 0 <= i < a.len() ==> #[trigger] covered_at(ar, a, b, i)
}

pub open spec fn covered_at<A: Arithmetic>(ar: A, a: Inputs, b: Inputs, i: int) -> bool {
    exists|j: int|
        0 <= j < b.len() && (#[trigger] b[j]).0 == a[i].0 && !ar.lt_spec(
            ar.plus_spec(b[j].1, slack(ar)),
            a[i].1,
        )
}

/// Some input of `b` is clearly greater than in `a`, or none of `a` at all.
pub open spec fn exceeded<A: Arithmetic>(ar: A, a: Inputs, b: Inputs) -> bool {
    exists|j: int| 0 <= j < b.len() && #[trigger] exceeded_at(ar, a, b, j)
}

pub open spec fn exceeded_at<A: Arithmetic>(ar: A, a: Inputs, b: Inputs, j: int) -> bool {
    forall|i: int|
        0 <= i < a.len() && (#[trigger] a[i]).0 == b[j].0 ==> ar.lt_spec(
            a[i].1,
            ar.minus_spec(b[j].1, slack(ar)),
        )
}

/// `a` needs no more than `b` of anything, and less of something.
pub open spec fn dominates_spec<A: Arithmetic>(ar: A, a: Inputs, b: Inputs) -> bool {
    covered(ar, a, b) && exceeded(ar, a, b)
}

/// Whether `a` needs no more than `b` of anything, and less of something.
fn dominates<A: Arithmetic>(
    ar: &A,
    a: &Vec<(MaterialId, Scalar)>,
    b: &Vec<(MaterialId, Scalar)>,
) -> (r: bool)
    requires
        ascending(a@),
        ascending(b@),
    ensures
        r == dominates_spec(*ar, a@, b@),
{
    let slack = ar.ratio(1, 1_000_000_000_000);
    let mut i: usize = 0;
    let mut j: usize = 0;
    let mut strict = false;
    while i < a.len()
        invariant
            i <= a@.len(),
            j <= b@.len(),
            ascending(a@),
            ascending(b@),
            slack == self::slack(*ar),
            forall|k: int| 0 <= k < i ==> #[trigger] covered_at(*ar, a@, b@, k),
            forall|k: int, l: int|
                0 <= k < i && j <= l < b@.len() ==> (#[trigger] a@[k]).0 < (#[trigger] b@[l]).0,
            forall|k: int, l: int|
                i <= k < a@.len() && 0 <= l < j ==> (#[trigger] a@[k]).0 > (#[trigger] b@[l]).0,
            strict <==> exists|l: int| 0 <= l < j && #[trigger] exceeded_at(*ar, a@, b@, l),
        decreases a@.len() - i,
    {
        while j < b.len() && b[j].0 < a[i].0
            invariant
                i < a@.len(),
                j <= b@.len(),
                ascending(a@),
                ascending(b@),
                slack == self::slack(*ar),
                forall|k: int, l: int|
                    0 <= k < i && j <= l < b@.len() ==> (#[trigger] a@[k]).0 < (
                    #[trigger] b@[l]).0,
                forall|k: int, l: int|
                    i <= k < a@.len() && 0 <= l < j ==> (#[trigger] a@[k]).0 > (
                    #[trigger] b@[l]).0,
                strict <==> exists|l: int| 0 <= l < j && #[trigger] exceeded_at(*ar, a@, b@, l),
            decreases b@.len() - j,
        {
            proof {
                assert forall|k: int| 0 <= k < a@.len() implies (#[trigger] a@[k]).0
                    != b@[j as int].0 by {
                    if k > i {
                        assert(a@[i as int].0 < a@[k].0);
                    }
                }
                assert(exceeded_at(*ar, a@, b@, j as int));
                assert forall|k: int, l: int|
                    i <= k < a@.len() && 0 <= l < j + 1 implies (#[trigger] a@[k]).0 > (
                #[trigger] b@[l]).0 by {
                    if l == j && k > i {
                        assert(a@[i as int].0 < a@[k].0);
                    }
                }
            }
            strict = true;
            j += 1;
        }
        if j >= b.len() || b[j].0 != a[i].0 {
            proof {
                if covered_at(*ar, a@, b@, i as int) {
                    let l = choose|l: int|
                        0 <= l < b@.len() && (#[trigger] b@[l]).0 == a@[i as int].0 && !ar.lt_spec(
                            ar.plus_spec(b@[l].1, self::slack(*ar)),
                            a@[i as int].1,
                        );
                    if l < j {
                        assert(a@[i as int].0 > b@[l].0);
                    } else if l > j {
                        assert(b@[j as int].0 < b@[l].0);
                    }
                }
                assert(!covered_at(*ar, a@, b@, i as int));
            }
            return false;
        }
        if ar.lt(ar.plus(b[j].1, slack), a[i].1) {
            proof {
                if covered_at(*ar, a@, b@, i as int) {
                    let l = choose|l: int|
                        0 <= l < b@.len() && (#[trigger] b@[l]).0 == a@[i as int].0 && !ar.lt_spec(
                            ar.plus_spec(b@[l].1, self::slack(*ar)),
                            a@[i as int].1,
                        );
                    if l < j {
                        assert(b@[l].0 < b@[j as int].0);
                    } else if l > j {
                        assert(b@[j as int].0 < b@[l].0);
                    }
                }
                assert(!covered_at(*ar, a@, b@, i as int));
            }
            return false;
        }
        let less = ar.lt(a[i].1, ar.minus(b[j].1, slack));
        proof {
            assert(b@[j as int].0 == a@[i as int].0);
            assert(covered_at(*ar, a@, b@, i as int));
            assert(exceeded_at(*ar, a@, b@, j as int) <==> less) by {
                if less {
                    assert forall|k: int|
                        0 <= k < a@.len() && (#[trigger] a@[k]).0
                            == b@[j as int].0 implies ar.lt_spec(
                        a@[k].1,
                        ar.minus_spec(b@[j as int].1, self::slack(*ar)),
                    ) by {
                        if k < i {
                            assert(a@[k].0 < a@[i as int].0);
                        } else if k > i {
                            assert(a@[i as int].0 < a@[k].0);
                        }
                    }
                }
            }
            assert forall|k: int, l: int|
                0 <= k < i + 1 && j + 1 <= l < b@.len() implies (#[trigger] a@[k]).0 < (
            #[trigger] b@[l]).0 by {
                assert(b@[j as int].0 < b@[l].0);
            }
            assert forall|k: int, l: int|
                i + 1 <= k < a@.len() && 0 <= l < j + 1 implies (#[trigger] a@[k]).0 > (
            #[trigger] b@[l]).0 by {
                assert(a@[i as int].0 < a@[k].0);
            }
        }
        if less {
            strict = true;
        }
        i += 1;
        j += 1;
    }
    if j < b.len() {
        proof {
            assert(exceeded_at(*ar, a@, b@, j as int));
        }
        strict = true;
    }
    strict
}

/// The inputs of a recipe per unit of its product.
fn find_inputs<A: Arithmetic>(
    ar: &A,
    g: &KnowledgeGraph,
    unit_cost: &Vec<Scalar>,
    rid: RecipeId,
    m: MaterialId,
) -> (r: Option<Vec<(MaterialId, Scalar)>>)
    requires
        g.wf(),
        unit_cost@.len() == g.m_count(),
        rid < g.r_count(),
        m < g.m_count(),
    ensures
        r is Some == inputs_per_unit(*ar, *g, unit_cost@, rid, m) is Some,
        r matches Some(v) ==> ascending(v@) && inputs_per_unit(*ar, *g, unit_cost@, rid, m)
            == Some(v@),
{
    let node = g.recipe(rid);
    if !g.is_plannable(rid) || node.inputs.len() == 0 {
        return None;
    }
    let q: u64 = match output_qty_of(node, m) {
        Some(q) => q,
        None => {
            return None;
        },
    };
    let qn = mat_norm_qty(ar, g, m, q);
    if ar.le(qn, ar.ratio(0, 1)) {
        return None;
    }
    let mut list: Vec<(MaterialId, Scalar)> = Vec::new();
    let mut s: usize = 0;
    while s < node.inputs.len()
        invariant
            s <= node.inputs@.len(),
            crate::graph::slots_ok(node.inputs@, g.m_count()),
            unit_cost@.len() == g.m_count(),
            ascending(list@),
            list@ == inputs_to(*ar, *g, unit_cost@, node.inputs@, qn, s as int),
        decreases node.inputs@.len() - s,
    {
        assert(crate::graph::slot_ok(node.inputs@[s as int], g.m_count()));
        match cheapest_alt(ar, g, unit_cost, None, &node.inputs[s]) {
            Some((am, aq)) => {
                enter(ar, &mut list, am, ar.over(mat_norm_qty(ar, g, am, aq), qn));
            },
            None => {},
        }
        s += 1;
    }
    Some(list)
}

/// Recipes with their inputs, as they are compared.
spec fn pairs(v: Seq<(RecipeId, Vec<(MaterialId, Scalar)>)>) -> Seq<(RecipeId, Inputs)> {
    v.map_values(|p: (RecipeId, Vec<(MaterialId, Scalar)>)| (p.0, p.1@))
}

/// The recipes for a product that are compared, each with its inputs.
fn find_compared<A: Arithmetic>(
    ar: &A,
    g: &KnowledgeGraph,
    unit_cost: &Vec<Scalar>,
    m: MaterialId,
) -> (r: Vec<(RecipeId, Vec<(MaterialId, Scalar)>)>)
    requires
        g.wf(),
        unit_cost@.len() == g.m_count(),
        m < g.m_count(),
    ensures
        pairs(r@) == compared(
            *ar,
            *g,
            unit_cost@,
            m,
            g.producers@[m as int]@.len() as int,
        ),
        forall|i: int|
            0 <= i < r@.len() ==> (#[trigger] r@[i]).0 < g.r_count() && ascending(r@[i].1@),
        forall|i: int, j: int| 0 <= i < j < r@.len() ==> (#[trigger] r@[i]).0 < (#[trigger] r@[j]).0,
{
    let prods = &g.producers[m as usize];
    let ghost p = |r: int| g.produces(r, m as int as u32);
    assert(crate::graph::lists(prods@, g.r_count(), p));
    let mut out: Vec<(RecipeId, Vec<(MaterialId, Scalar)>)> = Vec::new();
    assert(pairs(out@) =~= compared(*ar, *g, unit_cost@, m, 0));
    let mut i: usize = 0;
    while i < prods.len()
        invariant
            i <= prods@.len(),
            g.wf(),
            unit_cost@.len() == g.m_count(),
            m < g.m_count(),
            prods@ == g.producers@[m as int]@,
            crate::graph::lists(prods@, g.r_count(), p),
            pairs(out@) == compared(*ar, *g, unit_cost@, m, i as int),
            forall|k: int|
                0 <= k < out@.len() ==> (#[trigger] out@[k]).0 < g.r_count() && ascending(
                    out@[k].1@,
                ) && (i < prods@.len() ==> out@[k].0 < prods@[i as int]),
            forall|k: int, j: int|
                0 <= k < j < out@.len() ==> (#[trigger] out@[k]).0 < (#[trigger] out@[j]).0,
        decreases prods@.len() - i,
    {
        let rid: u32 = prods[i];
        let ghost before = out@;
        match find_inputs(ar, g, unit_cost, rid, m) {
            Some(v) => {
                out.push((rid, v));
                assert(pairs(out@) =~= pairs(before).push((rid, v@)));
            },
            None => {},
        }
        proof {
            if i + 1 < prods@.len() {
                assert(prods@[i as int] < prods@[i + 1]);
            }
        }
        i += 1;
    }
    out
}

/// How many of the first `n` recipes dominate the one at `j`.
pub open spec fn dominators<A: Arithmetic>(ar: A, specs: Seq<(RecipeId, Inputs)>, j: int, n: int) -> nat
    decreases n,
{
    if n <= 0 {
        0
    } else {
        dominators(ar, specs, j, n - 1) + if n - 1 != j && dominates_spec(
            ar,
            specs[n - 1].1,
            specs[j].1,
        ) {
            1nat
        } else {
            0
        }
    }
}

/// How many of the recipes that are compared dominate recipe `r`, which is among
/// the first `k` of them.
pub open spec fn dominated_among<A: Arithmetic>(
    ar: A,
    specs: Seq<(RecipeId, Inputs)>,
    r: RecipeId,
    k: int,
) -> nat
    decreases k,
{
    if k <= 0 {
        0
    } else if specs[k - 1].0 == r {
        dominators(ar, specs, k - 1, specs.len() as int)
    } else {
        dominated_among(ar, specs, r, k - 1)
    }
}

/// How many recipes for product `m` dominate recipe `r`. Products with a single
/// producer, or with more than 256, are left out.
pub open spec fn dominated_times<A: Arithmetic>(
    ar: A,
    g: KnowledgeGraph,
    unit_cost: Seq<Scalar>,
    r: RecipeId,
    m: MaterialId,
) -> nat {
    let n = g.producers@[m as int]@.len() as int;
    let specs = compared(ar, g, unit_cost, m, n);
    if n < 2 || n > 256 {
        0
    } else {
        dominated_among(ar, specs, r, specs.len() as int)
    }
}

/// The products below `m` for which recipe `r` is dominated, each as often as it
/// is.
pub open spec fn dominated_below<A: Arithmetic>(
    ar: A,
    g: KnowledgeGraph,
    unit_cost: Seq<Scalar>,
    r: RecipeId,
    m: int,
) -> Seq<MaterialId>
    decreases m,
{
    if m <= 0 {
        Seq::empty()
    } else {
        let x = (m - 1) as u32;
        dominated_below(ar, g, unit_cost, r, m - 1) + Seq::new(
            dominated_times(ar, g, unit_cost, r, x),
            |i: int| x,
        )
    }
}

/// The list is ascending.
pub open spec fn in_order(list: Seq<MaterialId>) -> bool {
    forall|a: int, b: int| 0 <= a <= b < list.len() ==> #[trigger] list[a] <= #[trigger] list[b]
}

/// The products of a recipe for which it is dominated come in ascending order,
/// and a product is among them exactly when some recipe for it dominates.
pub proof fn dominated_in_order<A: Arithmetic>(
    ar: A,
    g: KnowledgeGraph,
    unit_cost: Seq<Scalar>,
    r: RecipeId,
    n: int,
)
    requires
        0 <= n <= u32::MAX,
    ensures
        in_order(dominated_below(ar, g, unit_cost, r, n)),
        forall|m: MaterialId| #[trigger]
            dominated_below(ar, g, unit_cost, r, n).contains(m) <==> m < n && dominated_times(
                ar,
                g,
                unit_cost,
                r,
                m,
            ) > 0,
    decreases n,
{
    let list = dominated_below(ar, g, unit_cost, r, n);
    if n > 0 {
        dominated_in_order(ar, g, unit_cost, r, n - 1);
        let x = (n - 1) as u32;
        let rest = dominated_below(ar, g, unit_cost, r, n - 1);
        let k = dominated_times(ar, g, unit_cost, r, x);
        assert forall|a: int| 0 <= a < rest.len() implies #[trigger] rest[a] < n - 1 by {
            assert(rest.contains(rest[a]));
        }
        assert forall|a: int, b: int| 0 <= a <= b < list.len() implies #[trigger] list[a]
            <= #[trigger] list[b] by {
            if a < rest.len() {
                assert(list[a] == rest[a]);
            }
            if b < rest.len() {
                assert(list[b] == rest[b]);
            }
        }
        assert forall|m: MaterialId| #[trigger] list.contains(m) <==> m < n && dominated_times(
            ar,
            g,
            unit_cost,
            r,
            m,
        ) > 0 by {
            if list.contains(m) {
                let a = choose|a: int| 0 <= a < list.len() && list[a] == m;
                if a < rest.len() {
                    assert(rest[a] == m);
                    assert(rest.contains(m));
                }
            }
            if rest.contains(m) {
                let a = choose|a: int| 0 <= a < rest.len() && rest[a] == m;
                assert(list[a] == m);
            }
            if m == x && k > 0 {
                assert(list[rest.len() as int] == x);
            }
        }
    }
}

/// The products for which each recipe is dominated, in ascending order.
pub fn dominance_pruning<A: Arithmetic>(ar: &A, g: &KnowledgeGraph, unit_cost: &Vec<Scalar>) -> (r:
    Vec<Vec<MaterialId>>)
    requires
        g.wf(),
        unit_cost@.len() == g.m_count(),
    ensures
        r@.len() == g.r_count(),
        forall|k: int|
            0 <= k < r@.len() ==> (#[trigger] r@[k])@ == dominated_below(
                *ar,
                *g,
                unit_cost@,
                k as u32,
                g.m_count(),
            ) && in_order(r@[k]@),
{
    let n: usize = g.recipes.len();
    let mut out: Vec<Vec<MaterialId>> = Vec::new();
    let mut i: usize = 0;
    while i < n
        invariant
            i <= n,
            out@.len() == i,
            forall|k: int| 0 <= k < i ==> (#[trigger] out@[k])@ == Seq::<MaterialId>::empty(),
        decreases n - i,
    {
        out.push(Vec::new());
        i += 1;
    }
    let mut m: usize = 0;
    while m < g.materials.len()
        invariant
            m <= g.m_count(),
            g.wf(),
            unit_cost@.len() == g.m_count(),
            n == g.r_count(),
            out@.len() == n,
            forall|k: int|
                0 <= k < n ==> (#[trigger] out@[k])@ == dominated_below(
                    *ar,
                    *g,
                    unit_cost@,
                    k as u32,
                    m as int,
                ),
        decreases g.m_count() - m,
    {
        mark_product(ar, g, unit_cost, m as u32, &mut out);
        m += 1;
    }
    proof {
        assert forall|k: int| 0 <= k < n implies in_order((#[trigger] out@[k])@) by {
            dominated_in_order(*ar, *g, unit_cost@, k as u32, g.m_count());
        }
    }
    out
}

/// Notes for each recipe how often it is dominated for one product.
fn mark_product<A: Arithmetic>(
    ar: &A,
    g: &KnowledgeGraph,
    unit_cost: &Vec<Scalar>,
    m: MaterialId,
    out: &mut Vec<Vec<MaterialId>>,
)
    requires
        g.wf(),
        unit_cost@.len() == g.m_count(),
        m < g.m_count(),
        old(out)@.len() == g.r_count(),
    ensures
        final(out)@.len() == g.r_count(),
        forall|k: int|
            0 <= k < g.r_count() ==> (#[trigger] final(out)@[k])@ == old(out)@[k]@ + Seq::new(
                dominated_times(*ar, *g, unit_cost@, k as u32, m),
                |i: int| m,
            ),
{
    let ghost start = out@;
    let count: usize = g.producers[m as usize].len();
    if count < 2 || count > 256 {
        assert forall|k: int| 0 <= k < g.r_count() implies (#[trigger] out@[k])@ == start[k]@
            + Seq::new(dominated_times(*ar, *g, unit_cost@, k as u32, m), |i: int| m) by {
            assert(start[k]@ + Seq::new(0nat, |i: int| m) =~= start[k]@);
        }
        return;
    }
    let specs = find_compared(ar, g, unit_cost, m);
    let ghost view = pairs(specs@);
    let mut j: usize = 0;
    assert forall|k: int| 0 <= k < g.r_count() implies (#[trigger] out@[k])@ == start[k]@
        + Seq::new(dominated_among(*ar, view, k as u32, 0), |i: int| m) by {
        assert(start[k]@ + Seq::new(0nat, |i: int| m) =~= start[k]@);
    }
    while j < specs.len()
        invariant
            j <= specs@.len(),
            g.sized(),
            view == pairs(specs@),
            out@.len() == g.r_count(),
            start.len() == g.r_count(),
            forall|i: int|
                0 <= i < specs@.len() ==> (#[trigger] specs@[i]).0 < g.r_count() && ascending(
                    specs@[i].1@,
                ),
            forall|i: int, j: int|
                0 <= i < j < specs@.len() ==> (#[trigger] specs@[i]).0 < (#[trigger] specs@[j]).0,
            forall|k: int|
                0 <= k < g.r_count() ==> (#[trigger] out@[k])@ == start[k]@ + Seq::new(
                    dominated_among(*ar, view, k as u32, j as int),
                    |i: int| m,
                ),
        decreases specs@.len() - j,
    {
        let rid: usize = specs[j].0 as usize;
        let ghost before = out@;
        proof {
            among_none(*ar, view, rid as u32, j as int);
            assert(start[rid as int]@ + Seq::new(0nat, |i: int| m) =~= start[rid as int]@);
            assert(before[rid as int]@ == start[rid as int]@);
            assert(start[rid as int]@ + Seq::new(
                dominators(*ar, view, j as int, 0),
                |i: int| m,
            ) =~= start[rid as int]@);
        }
        let mut i: usize = 0;
        while i < specs.len()
            invariant
                i <= specs@.len(),
                j < specs@.len(),
                rid < g.r_count(),
                rid == specs@[j as int].0,
                view == pairs(specs@),
                out@.len() == g.r_count(),
                start.len() == g.r_count(),
                before.len() == g.r_count(),
                forall|i: int|
                    0 <= i < specs@.len() ==> (#[trigger] specs@[i]).0 < g.r_count() && ascending(
                        specs@[i].1@,
                    ),
                forall|k: int|
                    0 <= k < g.r_count() && k != rid ==> (#[trigger] out@[k])@ == before[k]@,
                out@[rid as int]@ == start[rid as int]@ + Seq::new(
                    dominators(*ar, view, j as int, i as int),
                    |x: int| m,
                ),
            decreases specs@.len() - i,
        {
            let ghost held = out@[rid as int]@;
            let ghost all = out@;
            assert(view[i as int].1 == specs@[i as int].1@);
            assert(view[j as int].1 == specs@[j as int].1@);
            if i != j && dominates(ar, &specs[i].1, &specs[j].1) {
                out[rid].push(m);
                let ghost k = dominators(*ar, view, j as int, i as int);
                assert(out@[rid as int]@ =~= start[rid as int]@ + Seq::new(k + 1, |x: int| m));
            }
            i += 1;
        }
        proof {
            assert(view.len() == specs@.len());
            assert forall|k: int| 0 <= k < g.r_count() implies (#[trigger] out@[k])@ == start[k]@
                + Seq::new(dominated_among(*ar, view, k as u32, j + 1), |i: int| m) by {
                assert(view[j as int].0 == specs@[j as int].0);
                if k != rid {
                    assert(out@[k]@ == before[k]@);
                }
            }
        }
        j += 1;
    }
    assert(view.len() == specs@.len());
}

proof fn among_none<A: Arithmetic>(ar: A, specs: Seq<(RecipeId, Inputs)>, r: RecipeId, k: int)
    requires
        0 <= k <= specs.len(),
        forall|i: int| 0 <= i < k ==> (#[trigger] specs[i]).0 != r,
    ensures
        dominated_among(ar, specs, r, k) == 0,
    decreases k,
{
    if k > 0 {
        assert(specs[k - 1].0 != r);
        among_none(ar, specs, r, k - 1);
    }
}

} // verus!

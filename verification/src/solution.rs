//! What a solution of the linear program becomes.
use vstd::prelude::*;

use crate::model::{MaterialId, RecipeId};
use crate::program::{total, total_step};
use crate::scalar::{Arithmetic, Scalar};
use crate::scale::Scale;
use crate::solver::{Entry, Exact, Feed, LpSolution};

verus! {

impl<'a, A: Arithmetic> Exact<'a, A> {
    /// One for each operation of a recipe whose component holds something else too.
    pub open spec fn circling(self, ops: Seq<(RecipeId, Scalar)>) -> spec_fn(int) -> int {
        |k: int|
            {
                let comp = self.an.scc.comp@[self.g.m_count() + ops[k].0 as int];
                if self.an.scc.sizes@[comp as int] >= 2 {
                    1
                } else {
                    0
                }
            }
    }

    /// The operations on cycles are counted once each.
    pub proof fn cycles_are_counted(self, ops: Seq<(RecipeId, Scalar)>, n: int)
        requires
            0 <= n <= ops.len(),
        ensures
            self.cyclic_to(ops, n) == total(n as nat, self.circling(ops)),
        decreases n,
    {
        if n > 0 {
            self.cycles_are_counted(ops, n - 1);
            total_step(n as nat, self.circling(ops));
        }
    }
}

impl<'a, A: Arithmetic> Exact<'a, A> {
    /// The operations of a plan are those of which there is more than nothing, at
    /// their rates.
    pub proof fn operations_are_used(
        self,
        w: Scale,
        recipes: Seq<Entry>,
        ops: Seq<Scalar>,
        n: int,
    )
        requires
            w.measures(*self.ar),
            0 <= n <= recipes.len(),
            ops.len() == recipes.len(),
            forall|r: int| 0 <= r < ops.len() ==> (w.fits)(#[trigger] ops[r]),
        ensures
            ({
                let used = self.used_ops_to(recipes, ops, n);
                &&& used.len() == total(n as nat, |r: int| if (w.of)(ops[r]) > 0 { 1 } else { 0 })
                &&& forall|r: int|
                    0 <= r < n && (w.of)(#[trigger] ops[r]) > 0 ==> used.contains(
                        (recipes[r].rid, ops[r]),
                    )
                &&& forall|k: int|
                    0 <= k < used.len() ==> stands_for(w, recipes, ops, n, #[trigger] used[k])
            }),
        decreases n,
    {
        let f = |r: int| if (w.of)(ops[r]) > 0 { 1int } else { 0 };
        if n > 0 {
            self.operations_are_used(w, recipes, ops, n - 1);
            total_step(n as nat, f);
            assert((w.fits)(ops[n - 1]));
            let rest = self.used_ops_to(recipes, ops, n - 1);
            let used = self.used_ops_to(recipes, ops, n);
            assert forall|r: int|
                0 <= r < n && (w.of)(#[trigger] ops[r]) > 0 implies used.contains(
                (recipes[r].rid, ops[r]),
            ) by {
                if r < n - 1 {
                    assert(rest.contains((recipes[r].rid, ops[r])));
                    let k = choose|k: int|
                        0 <= k < rest.len() && rest[k] == (recipes[r].rid, ops[r]);
                    assert(used[k] == rest[k]);
                } else {
                    assert(used[rest.len() as int] == (recipes[r].rid, ops[r]));
                }
            }
            assert forall|k: int| 0 <= k < used.len() implies stands_for(
                w,
                recipes,
                ops,
                n,
                #[trigger] used[k],
            ) by {
                if k < rest.len() {
                    assert(stands_for(w, recipes, ops, n - 1, rest[k]));
                    let r = choose|r: int|
                        0 <= r < n - 1 && rest[k] == (recipes[r].rid, #[trigger] ops[r]) && (w.of)(
                            ops[r],
                        ) > 0;
                    assert(used[k] == (recipes[r].rid, ops[r]));
                } else {
                    assert(used[k] == (recipes[n - 1].rid, ops[n - 1]));
                }
            }
        }
    }

    /// The raw materials of a plan are those of which more than nothing is imported,
    /// at their rates.
    pub proof fn imports_are_used(
        self,
        w: Scale,
        materials: Seq<MaterialId>,
        ext: Seq<Scalar>,
        n: int,
    )
        requires
            w.measures(*self.ar),
            0 <= n <= materials.len(),
            ext.len() == materials.len(),
            forall|i: int| 0 <= i < ext.len() ==> (w.fits)(#[trigger] ext[i]),
        ensures
            ({
                let used = self.used_raw_to(materials, ext, n);
                &&& used.len() == total(n as nat, |r: int| if (w.of)(ext[r]) > 0 { 1 } else { 0 })
                &&& forall|i: int|
                    0 <= i < n && (w.of)(#[trigger] ext[i]) > 0 ==> used.contains(
                        (materials[i], ext[i]),
                    )
                &&& forall|k: int|
                    0 <= k < used.len() ==> imports(w, materials, ext, n, #[trigger] used[k])
            }),
        decreases n,
    {
        let f = |r: int| if (w.of)(ext[r]) > 0 { 1int } else { 0 };
        if n > 0 {
            self.imports_are_used(w, materials, ext, n - 1);
            total_step(n as nat, f);
            assert((w.fits)(ext[n - 1]));
            let rest = self.used_raw_to(materials, ext, n - 1);
            let used = self.used_raw_to(materials, ext, n);
            assert forall|i: int|
                0 <= i < n && (w.of)(#[trigger] ext[i]) > 0 implies used.contains(
                (materials[i], ext[i]),
            ) by {
                if i < n - 1 {
                    assert(rest.contains((materials[i], ext[i])));
                    let k = choose|k: int| 0 <= k < rest.len() && rest[k] == (materials[i], ext[i]);
                    assert(used[k] == rest[k]);
                } else {
                    assert(used[rest.len() as int] == (materials[i], ext[i]));
                }
            }
            assert forall|k: int| 0 <= k < used.len() implies imports(
                w,
                materials,
                ext,
                n,
                #[trigger] used[k],
            ) by {
                if k < rest.len() {
                    assert(imports(w, materials, ext, n - 1, rest[k]));
                    let i = choose|i: int|
                        0 <= i < n - 1 && rest[k] == (materials[i], #[trigger] ext[i]) && (w.of)(
                            ext[i],
                        ) > 0;
                    assert(used[k] == (materials[i], ext[i]));
                } else {
                    assert(used[k] == (materials[n - 1], ext[n - 1]));
                }
            }
        }
    }

    /// Of the amounts that fill a slot the greatest is found, the first of those.
    pub proof fn greatest_is_found(self, w: Scale, values: Seq<Scalar>, n: int)
        requires
            w.measures(*self.ar),
            0 <= n <= values.len(),
            forall|a: int| 0 <= a < values.len() ==> w.amount(#[trigger] values[a]),
        ensures
            ({
                let (best, at) = self.greatest_to(values, n);
                &&& w.amount(best)
                &&& 0 <= at && (n > 0 ==> at < n)
                &&& forall|a: int| 0 <= a < n ==> (w.of)(#[trigger] values[a]) <= (w.of)(best)
                &&& (w.of)(best) > 0 ==> best == values[at] && forall|a: int|
                    0 <= a < at ==> (w.of)(#[trigger] values[a]) < (w.of)(best)
                &&& (w.of)(best) == 0 ==> at == 0
            }),
        decreases n,
    {
        w.whole(*self.ar, 0);
        if n > 0 {
            self.greatest_is_found(w, values, n - 1);
            assert(w.amount(values[n - 1]));
        }
    }

    /// A slot with a choice is shown as filled by the candidate that fills it most.
    pub proof fn most_fills_the_slot(
        self,
        materials: Seq<MaterialId>,
        e: Entry,
        fills: Seq<Vec<Scalar>>,
        n: int,
    )
        requires
            0 <= n <= e.inputs.len(),
        ensures
            self.picks_to(materials, e, fills, n).len() == n,
            forall|s: int|
                0 <= s < n ==> self.fills_most(
                    materials,
                    e.inputs[s],
                    fills[s]@,
                    #[trigger] self.picks_to(materials, e, fills, n)[s],
                ),
        decreases n,
    {
        if n > 0 {
            self.most_fills_the_slot(materials, e, fills, n - 1);
        }
    }

    pub open spec fn fills_most(
        self,
        materials: Seq<MaterialId>,
        f: Feed,
        amounts: Seq<Scalar>,
        m: MaterialId,
    ) -> bool {
        match f {
            Feed::Direct { material, qty } => m == materials[material as int],
            Feed::Choice { alts } => m == materials[alts[self.greatest_to(
                amounts,
                alts.len() as int,
            ).1].0 as int],
        }
    }

    /// What the operations of a recipe make of the material at `i`.
    pub open spec fn made_parts(self, w: Scale, e: Entry, op: Scalar, i: int) -> spec_fn(int) -> int {
        |k: int|
            if e.outputs[k].0 == i {
                (w.of)(self.ar.times_spec(op, e.outputs[k].1))
            } else {
                0
            }
    }

    pub open spec fn filled_parts(
        self,
        w: Scale,
        alts: Seq<(usize, Scalar)>,
        fills: Seq<Scalar>,
        i: int,
    ) -> spec_fn(int) -> int {
        |a: int|
            if alts[a].0 == i {
                (w.of)(self.ar.times_spec(fills[a], alts[a].1))
            } else {
                0
            }
    }

    /// What a slot takes of the material at `i`: each operation its quantity, or each
    /// amount that fills the slot the quantity of its candidate.
    pub open spec fn slot_takes(self, w: Scale, f: Feed, op: Scalar, fills: Seq<Scalar>, i: int) -> int {
        match f {
            Feed::Direct { material, qty } => if material == i {
                (w.of)(self.ar.times_spec(op, qty))
            } else {
                0
            },
            Feed::Choice { alts } => total(alts.len(), self.filled_parts(w, alts, fills, i)),
        }
    }

    pub open spec fn taken_parts(
        self,
        w: Scale,
        e: Entry,
        op: Scalar,
        fills: Seq<Vec<Scalar>>,
        i: int,
    ) -> spec_fn(int) -> int {
        |s: int| self.slot_takes(w, e.inputs[s], op, fills[s]@, i)
    }

    /// What all operations make of the material at `i`.
    pub open spec fn all_made(self, w: Scale, recipes: Seq<Entry>, x: LpSolution, i: int) -> spec_fn(
        int,
    ) -> int {
        |r: int|
            if (w.of)(x.ops@[r]) > 0 {
                total(
                    recipes[r].outputs.len(),
                    self.made_parts(w, recipes[r], x.ops@[r], i),
                )
            } else {
                0
            }
    }

    /// What all operations take of the material at `i`.
    pub open spec fn all_taken(self, w: Scale, recipes: Seq<Entry>, x: LpSolution, i: int) -> spec_fn(
        int,
    ) -> int {
        |r: int|
            if (w.of)(x.ops@[r]) > 0 {
                total(
                    recipes[r].inputs.len(),
                    self.taken_parts(w, recipes[r], x.ops@[r], x.fills@[r]@, i),
                )
            } else {
                0
            }
    }

    /// All numbers of a list are within range.
    pub open spec fn all_fit(w: Scale, v: Seq<Scalar>) -> bool {
        forall|j: int| 0 <= j < v.len() ==> (w.fits)(#[trigger] v[j])
    }

    /// What is made is summed up within range.
    pub open spec fn made_within(self, w: Scale, v: Seq<Scalar>, e: Entry, op: Scalar) -> bool {
        &&& forall|k: int|
            0 <= k <= e.outputs.len() ==> Self::all_fit(
                w,
                #[trigger] self.made_with(v, e.outputs, op, k),
            )
        &&& forall|j: int|
            0 <= j < e.outputs.len() ==> (#[trigger] e.outputs[j]).0 < v.len() && (w.fits)(
                self.ar.times_spec(op, e.outputs[j].1),
            )
    }

    proof fn made_adds_up(
        self,
        w: Scale,
        v: Seq<Scalar>,
        e: Entry,
        op: Scalar,
        i: int,
        k: int,
    )
        requires
            w.measures(*self.ar),
            self.made_within(w, v, e, op),
            0 <= i < v.len(),
            0 <= k <= e.outputs.len(),
        ensures
            self.made_with(v, e.outputs, op, k).len() == v.len(),
            (w.of)(self.made_with(v, e.outputs, op, k)[i]) == (w.of)(v[i]) + total(
                k as nat,
                self.made_parts(w, e, op, i),
            ),
        decreases k,
    {
        if k > 0 {
            self.made_adds_up(w, v, e, op, i, k - 1);
            total_step(k as nat, self.made_parts(w, e, op, i));
            let before = self.made_with(v, e.outputs, op, k - 1);
            let now = self.made_with(v, e.outputs, op, k);
            assert(Self::all_fit(w, before) && Self::all_fit(w, now));
            assert(e.outputs[k - 1].0 < v.len());
            assert((w.fits)(before[i]) && (w.fits)(now[i]));
        }
    }

    /// What fills a slot is summed up within range.
    pub open spec fn fills_within(
        self,
        w: Scale,
        v: Seq<Scalar>,
        alts: Seq<(usize, Scalar)>,
        fills: Seq<Scalar>,
    ) -> bool {
        &&& forall|a: int|
            0 <= a <= alts.len() ==> Self::all_fit(w, #[trigger] self.filled_with(v, alts, fills, a))
        &&& forall|j: int|
            0 <= j < alts.len() ==> (#[trigger] alts[j]).0 < v.len() && (w.fits)(
                self.ar.times_spec(fills[j], alts[j].1),
            )
    }

    proof fn fills_add_up(
        self,
        w: Scale,
        v: Seq<Scalar>,
        alts: Seq<(usize, Scalar)>,
        fills: Seq<Scalar>,
        i: int,
        a: int,
    )
        requires
            w.measures(*self.ar),
            self.fills_within(w, v, alts, fills),
            0 <= i < v.len(),
            0 <= a <= alts.len(),
        ensures
            self.filled_with(v, alts, fills, a).len() == v.len(),
            (w.of)(self.filled_with(v, alts, fills, a)[i]) == (w.of)(v[i]) + total(
                a as nat,
                self.filled_parts(w, alts, fills, i),
            ),
        decreases a,
    {
        if a > 0 {
            self.fills_add_up(w, v, alts, fills, i, a - 1);
            total_step(a as nat, self.filled_parts(w, alts, fills, i));
            let before = self.filled_with(v, alts, fills, a - 1);
            let now = self.filled_with(v, alts, fills, a);
            assert(Self::all_fit(w, before) && Self::all_fit(w, now));
            assert(alts[a - 1].0 < v.len());
            assert((w.fits)(before[i]) && (w.fits)(now[i]));
        }
    }

    /// What the slots take is summed up within range.
    pub open spec fn taken_within(
        self,
        w: Scale,
        v: Seq<Scalar>,
        e: Entry,
        op: Scalar,
        fills: Seq<Vec<Scalar>>,
    ) -> bool {
        &&& forall|s: int|
            0 <= s <= e.inputs.len() ==> Self::all_fit(w, #[trigger] self.taken_with(v, e, op, fills, s))
        &&& forall|s: int|
            0 <= s < e.inputs.len() ==> self.slot_within(
                w,
                self.taken_with(v, e, op, fills, s),
                #[trigger] e.inputs[s],
                op,
                fills[s]@,
            )
    }

    pub open spec fn slot_within(
        self,
        w: Scale,
        v: Seq<Scalar>,
        f: Feed,
        op: Scalar,
        fills: Seq<Scalar>,
    ) -> bool {
        match f {
            Feed::Direct { material, qty } => material < v.len() && (w.fits)(
                self.ar.times_spec(op, qty),
            ),
            Feed::Choice { alts } => self.fills_within(w, v, alts, fills),
        }
    }

    proof fn taken_adds_up(
        self,
        w: Scale,
        v: Seq<Scalar>,
        e: Entry,
        op: Scalar,
        fills: Seq<Vec<Scalar>>,
        i: int,
        s: int,
    )
        requires
            w.measures(*self.ar),
            self.taken_within(w, v, e, op, fills),
            0 <= i < v.len(),
            0 <= s <= e.inputs.len(),
        ensures
            self.taken_with(v, e, op, fills, s).len() == v.len(),
            (w.of)(self.taken_with(v, e, op, fills, s)[i]) == (w.of)(v[i]) + total(
                s as nat,
                self.taken_parts(w, e, op, fills, i),
            ),
        decreases s,
    {
        if s > 0 {
            self.taken_adds_up(w, v, e, op, fills, i, s - 1);
            total_step(s as nat, self.taken_parts(w, e, op, fills, i));
            let before = self.taken_with(v, e, op, fills, s - 1);
            let now = self.taken_with(v, e, op, fills, s);
            assert(Self::all_fit(w, before) && Self::all_fit(w, now));
            assert(self.slot_within(w, before, e.inputs[s - 1], op, fills[s - 1]@));
            match e.inputs[s - 1] {
                Feed::Direct { material, qty } => {
                    assert((w.fits)(before[i]) && (w.fits)(now[i]));
                },
                Feed::Choice { alts } => {
                    self.fills_add_up(w, before, alts, fills[s - 1]@, i, alts.len() as int);
                },
            }
        }
    }

    /// The flows of a solution are summed up within range.
    pub open spec fn flows_within(self, w: Scale, recipes: Seq<Entry>, x: LpSolution, n: nat) -> bool {
        forall|r: int|
            0 <= r < recipes.len() ==> self.recipe_within(w, #[trigger] recipes[r], x, r, self.flows_to(recipes, x, n, r))
    }

    pub open spec fn recipe_within(
        self,
        w: Scale,
        e: Entry,
        x: LpSolution,
        r: int,
        flows: (Seq<Scalar>, Seq<Scalar>),
    ) -> bool {
        &&& (w.fits)(x.ops@[r])
        &&& (w.of)(x.ops@[r]) > 0 ==> self.made_within(w, flows.0, e, x.ops@[r])
            && self.taken_within(w, flows.1, e, x.ops@[r], x.fills@[r]@)
    }

    /// What flows of each material is what the operations make of it, and what they
    /// take of it.
    pub proof fn flows_add_up(self, w: Scale, recipes: Seq<Entry>, x: LpSolution, n: nat, r: int, i: int)
        requires
            w.measures(*self.ar),
            self.flows_within(w, recipes, x, n),
            0 <= r <= recipes.len(),
            0 <= i < n,
        ensures
            ({
                let (made, taken) = self.flows_to(recipes, x, n, r);
                &&& made.len() == n && taken.len() == n
                &&& (w.of)(made[i]) == total(r as nat, self.all_made(w, recipes, x, i))
                &&& (w.of)(taken[i]) == total(r as nat, self.all_taken(w, recipes, x, i))
            }),
        decreases r,
    {
        if r == 0 {
            w.whole(*self.ar, 0);
        } else {
            self.flows_add_up(w, recipes, x, n, r - 1, i);
            total_step(r as nat, self.all_made(w, recipes, x, i));
            total_step(r as nat, self.all_taken(w, recipes, x, i));
            let before = self.flows_to(recipes, x, n, r - 1);
            let e = recipes[r - 1];
            let op = x.ops@[r - 1];
            assert(self.recipe_within(w, recipes[r - 1], x, r - 1, before));
            if (w.of)(op) > 0 {
                self.made_adds_up(w, before.0, e, op, i, e.outputs.len() as int);
                self.taken_adds_up(
                    w,
                    before.1,
                    e,
                    op,
                    x.fills@[r - 1]@,
                    i,
                    e.inputs.len() as int,
                );
            }
        }
    }

    /// What is left of a material: what is made of it, less what is taken and what is
    /// asked for. It is listed where it is more than a millionth.
    pub proof fn surplus_is_left(
        self,
        w: Scale,
        materials: Seq<MaterialId>,
        flows: (Seq<Scalar>, Seq<Scalar>),
        n: int,
        i: int,
    )
        requires
            w.measures(*self.ar),
            0 <= i < n <= materials.len(),
            ({
                let a = self.ar.minus_spec(flows.0[i], flows.1[i]);
                &&& (w.fits)(flows.0[i]) && (w.fits)(flows.1[i]) && (w.fits)(a)
                &&& (w.fits)(self.rate_per_min)
                &&& (w.fits)(self.ar.minus_spec(a, self.ar.ratio_spec(0, 1)))
                &&& (w.fits)(self.ar.minus_spec(a, self.rate_per_min))
                &&& (w.fits)(self.ar.ratio_spec(1, 1_000_000))
            }),
        ensures
            ({
                let surplus = (w.of)(flows.0[i]) - (w.of)(flows.1[i]) - if materials[i]
                    == self.target {
                    (w.of)(self.rate_per_min)
                } else {
                    0
                };
                let least = (w.of)(self.ar.ratio_spec(1, 1_000_000));
                surplus > least ==> exists|k: int|
                    0 <= k < self.left_to(materials, flows, n).len() && (
                    #[trigger] self.left_to(materials, flows, n)[k]).0 == materials[i] && (w.of)(
                        self.left_to(materials, flows, n)[k].1,
                    ) == surplus
            }),
        decreases n,
    {
        w.whole(*self.ar, 0);
        let rest = self.left_to(materials, flows, n - 1);
        let now = self.left_to(materials, flows, n);
        let least = (w.of)(self.ar.ratio_spec(1, 1_000_000));
        let surplus = (w.of)(flows.0[i]) - (w.of)(flows.1[i]) - if materials[i] == self.target {
            (w.of)(self.rate_per_min)
        } else {
            0
        };
        if i < n - 1 {
            self.surplus_is_left(w, materials, flows, n - 1, i);
            if surplus > least {
                let k = choose|k: int|
                    0 <= k < rest.len() && (#[trigger] rest[k]).0 == materials[i] && (w.of)(
                        rest[k].1,
                    ) == surplus;
                assert(now[k] == rest[k]);
            }
        } else if surplus > least {
            assert(now[rest.len() as int].0 == materials[i]);
        }
    }

    /// Nothing is listed as left that is not a surplus.
    pub proof fn only_surplus_is_left(
        self,
        materials: Seq<MaterialId>,
        flows: (Seq<Scalar>, Seq<Scalar>),
        n: int,
        k: int,
    ) -> (i: int)
        requires
            0 <= n <= materials.len(),
            0 <= k < self.left_to(materials, flows, n).len(),
        ensures
            0 <= i < n,
            self.left_to(materials, flows, n)[k].0 == materials[i],
            self.left_to(materials, flows, n)[k].1 == self.ar.minus_spec(
                self.ar.minus_spec(flows.0[i], flows.1[i]),
                if materials[i] == self.target {
                    self.rate_per_min
                } else {
                    self.ar.ratio_spec(0, 1)
                },
            ),
            self.ar.lt_spec(
                self.ar.ratio_spec(1, 1_000_000),
                self.left_to(materials, flows, n)[k].1,
            ),
        decreases n,
    {
        let rest = self.left_to(materials, flows, n - 1);
        if n > 0 && k < rest.len() {
            self.only_surplus_is_left(materials, flows, n - 1, k)
        } else {
            n - 1
        }
    }
}

/// How many candidates the choices of a recipe offer.
pub open spec fn offered(e: Entry) -> spec_fn(int) -> int {
    |s: int|
        match e.inputs[s] {
            Feed::Choice { alts } => alts.len() as int,
            _ => 0,
        }
}

/// One for each slot with a choice.
pub open spec fn chosen(e: Entry) -> spec_fn(int) -> int {
    |s: int|
        if e.inputs[s] is Choice {
            1
        } else {
            0
        }
}

proof fn slots_counted(e: Entry, n: int)
    requires
        0 <= n <= e.inputs.len(),
        total(n as nat, offered(e)) <= usize::MAX,
        total(n as nat, chosen(e)) <= usize::MAX,
    ensures
        crate::solver::alt_count_to(e, n) == total(n as nat, offered(e)),
        crate::solver::choice_count_to(e, n) == total(n as nat, chosen(e)),
    decreases n,
{
    if n > 0 {
        total_step(n as nat, offered(e));
        total_step(n as nat, chosen(e));
        never_less(e, n - 1);
        slots_counted(e, n - 1);
    }
}

proof fn never_less(e: Entry, n: int)
    requires
        0 <= n <= e.inputs.len(),
    ensures
        total(n as nat, offered(e)) >= 0,
        total(n as nat, chosen(e)) >= 0,
    decreases n,
{
    if n > 0 {
        never_less(e, n - 1);
        total_step(n as nat, offered(e));
        total_step(n as nat, chosen(e));
    }
}

/// What each recipe adds to the size of a program.
pub open spec fn all_offered(recipes: Seq<Entry>) -> spec_fn(int) -> int {
    |r: int| total(recipes[r].inputs.len(), offered(recipes[r]))
}

pub open spec fn all_chosen(recipes: Seq<Entry>) -> spec_fn(int) -> int {
    |r: int| total(recipes[r].inputs.len(), chosen(recipes[r]))
}

/// A program has a variable for each candidate of a choice, and a condition for each
/// choice, besides those of its materials and recipes.
pub proof fn programs_are_counted(recipes: Seq<Entry>, n: int)
    requires
        0 <= n <= recipes.len(),
        total(n as nat, all_offered(recipes)) <= usize::MAX,
        total(n as nat, all_chosen(recipes)) <= usize::MAX,
    ensures
        crate::solver::counts_to(recipes, n).0 == total(n as nat, all_offered(recipes)),
        crate::solver::counts_to(recipes, n).1 == total(n as nat, all_chosen(recipes)),
    decreases n,
{
    if n > 0 {
        total_step(n as nat, all_offered(recipes));
        total_step(n as nat, all_chosen(recipes));
        let e = recipes[n - 1];
        never_less(e, e.inputs.len() as int);
        never_less_in_all(recipes, n - 1);
        slots_counted(e, e.inputs.len() as int);
        programs_are_counted(recipes, n - 1);
    }
}

proof fn never_less_in_all(recipes: Seq<Entry>, n: int)
    requires
        0 <= n <= recipes.len(),
    ensures
        total(n as nat, all_offered(recipes)) >= 0,
        total(n as nat, all_chosen(recipes)) >= 0,
    decreases n,
{
    if n > 0 {
        never_less_in_all(recipes, n - 1);
        total_step(n as nat, all_offered(recipes));
        total_step(n as nat, all_chosen(recipes));
        never_less(recipes[n - 1], recipes[n - 1].inputs.len() as int);
    }
}

/// The operations are those of a recipe, and more than nothing.
pub open spec fn stands_for(
    w: Scale,
    recipes: Seq<Entry>,
    ops: Seq<Scalar>,
    n: int,
    o: (RecipeId, Scalar),
) -> bool {
    exists|r: int|
        0 <= r < n && o == (recipes[r].rid, #[trigger] ops[r]) && (w.of)(ops[r]) > 0
}

/// The import is that of a material, and more than nothing.
pub open spec fn imports(
    w: Scale,
    materials: Seq<MaterialId>,
    ext: Seq<Scalar>,
    n: int,
    o: (MaterialId, Scalar),
) -> bool {
    exists|i: int| 0 <= i < n && o == (materials[i], #[trigger] ext[i]) && (w.of)(ext[i]) > 0
}

} // verus!

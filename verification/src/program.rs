//! What the linear program of the exact planner says, in parts of a unit.
//!
//! An assignment gives each variable a whole number of small amounts. What a sum of
//! terms comes to under it is a whole number too, so that the conditions and the
//! objective can be read without the arithmetic that wrote their coefficients.
use vstd::prelude::*;

use crate::balance::weigh;
use crate::model::{MaterialId, RecipeId};
use crate::scalar::{Arithmetic, Scalar};
use crate::scale::{floors, Scale};
use crate::solver::{Condition, Entry, Exact, Feed, LpVar};

verus! {

/// What the terms come to.
pub open spec fn value(w: Scale, terms: Seq<(LpVar, Scalar)>, x: spec_fn(LpVar) -> int) -> int {
    weigh(terms, |t: (LpVar, Scalar)| (w.of)(t.1) * x(t.0))
}

/// The numbers below `n` in order.
pub open spec fn below(n: nat) -> Seq<int> {
    Seq::new(n, |i: int| i)
}

/// The sum of `f` over the numbers below `n`.
pub open spec fn total(n: nat, f: spec_fn(int) -> int) -> int {
    weigh(below(n), f)
}

/// One number more adds its part.
pub proof fn total_step(n: nat, f: spec_fn(int) -> int)
    requires
        n > 0,
    ensures
        total(n, f) == total((n - 1) as nat, f) + f(n - 1),
{
    assert(below(n).drop_last() =~= below((n - 1) as nat));
}

/// Equal parts come to equal sums.
pub proof fn total_same(n: nat, f: spec_fn(int) -> int, h: spec_fn(int) -> int)
    requires
        forall|i: int| 0 <= i < n ==> #[trigger] f(i) == h(i),
    ensures
        total(n, f) == total(n, h),
    decreases n,
{
    if n > 0 {
        total_step(n, f);
        total_step(n, h);
        total_same((n - 1) as nat, f, h);
        assert(f(n - 1) == h(n - 1));
    }
}

proof fn value_sum(w: Scale, a: Seq<(LpVar, Scalar)>, b: Seq<(LpVar, Scalar)>, x: spec_fn(LpVar) -> int)
    ensures
        value(w, a + b, x) == value(w, a, x) + value(w, b, x),
    decreases b.len(),
{
    if b.len() == 0 {
        assert(a + b =~= a);
    } else {
        assert((a + b).drop_last() =~= a + b.drop_last());
        assert((a + b).last() == b.last());
        value_sum(w, a, b.drop_last(), x);
    }
}

proof fn value_push(w: Scale, a: Seq<(LpVar, Scalar)>, t: (LpVar, Scalar), x: spec_fn(LpVar) -> int)
    ensures
        value(w, a.push(t), x) == value(w, a, x) + (w.of)(t.1) * x(t.0),
{
    assert(a.push(t).drop_last() =~= a);
}

/// The value of a list of terms, one for each number.
proof fn value_listed(w: Scale, terms: Seq<(LpVar, Scalar)>, x: spec_fn(LpVar) -> int)
    ensures
        value(w, terms, x) == total(terms.len(), |i: int| (w.of)(terms[i].1) * x(terms[i].0)),
    decreases terms.len(),
{
    let n = terms.len();
    let f = |i: int| (w.of)(terms[i].1) * x(terms[i].0);
    if n > 0 {
        let rest = terms.drop_last();
        let h = |i: int| (w.of)(rest[i].1) * x(rest[i].0);
        value_listed(w, rest, x);
        total_step(n, f);
        total_same((n - 1) as nat, f, h);
    }
}

impl<'a, A: Arithmetic> Exact<'a, A> {
    /// The energy that an operation draws.
    pub open spec fn drawn(self, w: Scale, rid: RecipeId) -> int {
        match self.g.recipes@[rid as int].gt {
            Some(gt) => if gt.consumes_spec() {
                (w.of)(gt.total_eu)
            } else {
                0
            },
            None => 0,
        }
    }

    /// The ticks that an operation takes.
    pub open spec fn ticks(self, rid: RecipeId) -> u32 {
        match self.g.recipes@[rid as int].gt {
            Some(gt) => gt.duration_ticks,
            None => 0,
        }
    }

    /// The numbers of the price of an operation are within range.
    pub open spec fn op_fits(self, w: Scale, rid: RecipeId) -> bool {
        let zero = self.ar.ratio_spec(0, 1);
        let minutes = self.ar.over_spec(
            self.ar.ratio_spec(self.ticks(rid) as u64, 1),
            self.ar.ratio_spec(1200, 1),
        );
        let weights = self.an.cost.weights;
        let sum = |eu: Scalar, m: Scalar|
            self.ar.plus_spec(
                self.ar.times_spec(weights.eu, eu),
                self.ar.times_spec(weights.machine, m),
            );
        &&& w.amount(weights.eu) && w.amount(weights.machine) && w.amount(self.opts.ops_penalty)
        &&& (w.fits)(self.ar.ratio_spec(1200, 1))
        &&& (w.fits)(self.ar.ratio_spec(self.ticks(rid) as u64, 1))
        &&& (w.fits)(minutes)
        &&& self.g.recipes@[rid as int].gt matches Some(gt) ==> w.amount(gt.total_eu)
        &&& forall|eu: Scalar, m: Scalar|
            (eu == zero || (self.g.recipes@[rid as int].gt matches Some(gt) && eu == gt.total_eu))
                && (m == zero || m == minutes) ==> (w.fits)(
                #[trigger] self.ar.times_spec(weights.eu, eu),
            ) && (w.fits)(#[trigger] self.ar.times_spec(weights.machine, m)) && (w.fits)(sum(eu, m))
                && (w.fits)(self.ar.plus_spec(sum(eu, m), self.opts.ops_penalty))
    }

    /// An operation is priced at the energy it draws and the minutes that a machine
    /// works for it, each by its weight, and at the penalty of an operation.
    pub open spec fn op_costs(self, w: Scale, rid: RecipeId, price: int) -> bool {
        exists|energy: int, minutes: int, machine: int|
            #![trigger floors(energy, (w.of)(self.an.cost.weights.eu) * self.drawn(w, rid), w.unit), floors(minutes, self.ticks(rid) * w.unit, 1200), floors(machine, (w.of)(self.an.cost.weights.machine) * minutes, w.unit)]
            {
                &&& floors(
                    energy,
                    (w.of)(self.an.cost.weights.eu) * self.drawn(w, rid),
                    w.unit,
                )
                &&& floors(minutes, self.ticks(rid) * w.unit, 1200)
                &&& floors(machine, (w.of)(self.an.cost.weights.machine) * minutes, w.unit)
                &&& price == energy + machine + (w.of)(self.opts.ops_penalty)
            }
    }

    /// Operations are priced at what they draw and take.
    pub proof fn operations_cost(self, w: Scale, rid: RecipeId)
        requires
            w.measures(*self.ar),
            self.op_fits(w, rid),
        ensures
            self.op_costs(w, rid, (w.of)(self.op_price(rid))),
    {
        let zero = self.ar.ratio_spec(0, 1);
        let ticks = self.ticks(rid);
        let t = self.ar.ratio_spec(ticks as u64, 1);
        let most = self.ar.ratio_spec(1200, 1);
        let minutes = self.ar.over_spec(t, most);
        let u = w.unit;
        w.whole(*self.ar, 0);
        w.whole(*self.ar, 1200);
        w.whole(*self.ar, ticks as u64);
        assert(ticks * u >= 0) by (nonlinear_arith)
            requires
                ticks >= 0,
                u > 0,
        ;
        let x = (w.of)(minutes);
        assert(floors(x, ticks * u, 1200)) by {
            assert(x * (1200 * u) <= (ticks * u) * u < x * (1200 * u) + 1200 * u);
            assert(x * 1200 <= ticks * u && ticks * u < x * 1200 + 1200) by (nonlinear_arith)
                requires
                    x * (1200 * u) <= (ticks * u) * u < x * (1200 * u) + 1200 * u,
                    u > 0,
            ;
        }
        let weights = self.an.cost.weights;
        let (eu, m) = match self.g.recipes@[rid as int].gt {
            Some(gt) => (
                if gt.consumes_spec() {
                    gt.total_eu
                } else {
                    zero
                },
                minutes,
            ),
            None => (zero, zero),
        };
        let energy = self.ar.times_spec(weights.eu, eu);
        let machine = self.ar.times_spec(weights.machine, m);
        assert(w.amount(eu) && w.amount(m));
        assert((w.fits)(energy) && (w.fits)(machine));
        assert((w.of)(eu) == self.drawn(w, rid));
        assert(floors((w.of)(m), ticks * u, 1200));
        assert(floors((w.of)(energy), (w.of)(weights.eu) * self.drawn(w, rid), w.unit));
        assert(floors((w.of)(machine), (w.of)(weights.machine) * (w.of)(m), w.unit));
        assert((w.of)(self.op_price(rid)) == (w.of)(energy) + (w.of)(machine) + (w.of)(
            self.opts.ops_penalty,
        ));
    }

    /// Of two recipes that take as long, the one that draws more energy is dearer, by
    /// the weight of energy times the difference, up to the rounding of a part.
    pub proof fn energy_counts(self, w: Scale, a: RecipeId, b: RecipeId)
        requires
            w.measures(*self.ar),
            self.op_fits(w, a),
            self.op_fits(w, b),
            self.ticks(a) == self.ticks(b),
        ensures
            ({
                let by = (w.of)(self.op_price(a)) - (w.of)(self.op_price(b));
                let more = (w.of)(self.an.cost.weights.eu) * (self.drawn(w, a) - self.drawn(w, b));
                more - w.unit < by * w.unit < more + w.unit
            }),
    {
        self.operations_cost(w, a);
        self.operations_cost(w, b);
        let we = (w.of)(self.an.cost.weights.eu);
        let wm = (w.of)(self.an.cost.weights.machine);
        let u = w.unit;
        let t = self.ticks(a) * u;
        let (ea, ma, ka) = choose|energy: int, minutes: int, machine: int|
            #![trigger floors(energy, we * self.drawn(w, a), u), floors(minutes, t, 1200), floors(machine, wm * minutes, u)]
            floors(energy, we * self.drawn(w, a), u) && floors(minutes, t, 1200) && floors(
                machine,
                wm * minutes,
                u,
            ) && (w.of)(self.op_price(a)) == energy + machine + (w.of)(self.opts.ops_penalty);
        let (eb, mb, kb) = choose|energy: int, minutes: int, machine: int|
            #![trigger floors(energy, we * self.drawn(w, b), u), floors(minutes, t, 1200), floors(machine, wm * minutes, u)]
            floors(energy, we * self.drawn(w, b), u) && floors(minutes, t, 1200) && floors(
                machine,
                wm * minutes,
                u,
            ) && (w.of)(self.op_price(b)) == energy + machine + (w.of)(self.opts.ops_penalty);
        assert(ma == mb);
        floors_once(ka, kb, wm * ma, u);
        let da = self.drawn(w, a);
        let db = self.drawn(w, b);
        assert(we * (da - db) == we * da - we * db) by (nonlinear_arith);
        assert((ea - eb) * u == ea * u - eb * u) by (nonlinear_arith);
    }

    /// The numbers of the price of an import are within range.
    pub open spec fn import_fits(self, w: Scale, m: MaterialId) -> bool {
        let one = self.ar.times_spec(self.an.cost.weights.material, self.ar.ratio_spec(1, 1));
        let many = self.ar.times_spec(self.an.cost.weights.material, self.ar.ratio_spec(1000, 1));
        let small = self.ar.ratio_spec(1, 1000);
        &&& w.amount(self.an.cost.weights.material)
        &&& (w.fits)(self.ar.ratio_spec(1, 1)) && (w.fits)(self.ar.ratio_spec(1000, 1)) && (w.fits)(
            small,
        )
        &&& (w.fits)(one) && (w.fits)(many)
        &&& (w.fits)(self.ar.times_spec(one, small)) && (w.fits)(self.ar.times_spec(many, small))
    }

    /// An import is priced at the weight of materials: an item that nothing makes at
    /// the weight itself, one that is made at a thousand times that, and a fluid at a
    /// thousandth of what an item is.
    pub open spec fn import_costs(self, w: Scale, m: MaterialId, price: int) -> bool {
        let base = (w.of)(self.an.cost.weights.material) * if self.g.source_spec(m) {
            1int
        } else {
            1000
        };
        if self.g.materials@[m as int].key.kind is Fluid {
            exists|small: int| #[trigger]
                floors(small, w.unit, 1000) && floors(price, base * small, w.unit)
        } else {
            price == base
        }
    }

    /// Imports are priced by what they are.
    pub proof fn imports_cost(self, w: Scale, m: MaterialId)
        requires
            w.measures(*self.ar),
            self.import_fits(w, m),
        ensures
            self.import_costs(w, m, (w.of)(self.import_price(m))),
            (w.fits)(self.import_price(m)),
    {
        let wm = self.an.cost.weights.material;
        crate::planner::steps::times_whole(w, *self.ar, wm, 1);
        crate::planner::steps::times_whole(w, *self.ar, wm, 1000);
        let small = self.ar.ratio_spec(1, 1000);
        assert(floors((w.of)(small), w.unit, 1000));
    }

    /// The objective is what the imports and the operations cost: each material and
    /// each recipe counts once, at its price, and nothing else counts.
    pub proof fn objective_counts_costs(
        self,
        w: Scale,
        materials: Seq<MaterialId>,
        recipes: Seq<Entry>,
        x: spec_fn(LpVar) -> int,
    )
        ensures
            value(w, self.objective(materials, recipes), x) == total(
                materials.len(),
                |i: int| (w.of)(self.import_price(materials[i])) * x(LpVar::Ext(i as usize)),
            ) + total(
                recipes.len(),
                |r: int| (w.of)(self.op_price(recipes[r].rid)) * x(LpVar::Ops(r as usize)),
            ),
    {
        let a = Seq::new(
            materials.len(),
            |i: int| (LpVar::Ext(i as usize), self.import_price(materials[i])),
        );
        let b = Seq::new(
            recipes.len(),
            |r: int| (LpVar::Ops(r as usize), self.op_price(recipes[r].rid)),
        );
        value_sum(w, a, b, x);
        value_listed(w, a, x);
        value_listed(w, b, x);
        total_same(
            materials.len(),
            |i: int| (w.of)(a[i].1) * x(a[i].0),
            |i: int| (w.of)(self.import_price(materials[i])) * x(LpVar::Ext(i as usize)),
        );
        total_same(
            recipes.len(),
            |i: int| (w.of)(b[i].1) * x(b[i].0),
            |r: int| (w.of)(self.op_price(recipes[r].rid)) * x(LpVar::Ops(r as usize)),
        );
        assert(self.objective(materials, recipes) =~= a + b);
    }
}

pub open spec fn made_parts(w: Scale, e: Entry, i: int) -> spec_fn(int) -> int {
    |k: int|
        if e.outputs[k].0 == i {
            (w.of)(e.outputs[k].1)
        } else {
            0
        }
}

/// What an operation makes of the material at `i`.
pub open spec fn makes(w: Scale, e: Entry, i: int) -> int {
    total(
        e.outputs.len(),
        made_parts(w, e, i),
    )
}

/// What a slot without a choice takes of the material at `i`.
pub open spec fn taken_by(w: Scale, f: Feed, i: int) -> int {
    match f {
        Feed::Direct { material, qty } => if material == i {
            (w.of)(qty)
        } else {
            0
        },
        _ => 0,
    }
}

pub open spec fn taken_parts(w: Scale, e: Entry, i: int) -> spec_fn(int) -> int {
    |s: int| taken_by(w, e.inputs[s], i)
}

/// What an operation takes of the material at `i` in slots without a choice.
pub open spec fn takes(w: Scale, e: Entry, i: int) -> int {
    total(
        e.inputs.len(),
        taken_parts(w, e, i),
    )
}

pub open spec fn alt_parts(
    w: Scale,
    alts: Seq<(usize, Scalar)>,
    i: int,
    r: int,
    s: int,
    x: spec_fn(LpVar) -> int,
) -> spec_fn(int) -> int {
    |a: int|
        if alts[a].0 == i {
            (w.of)(alts[a].1) * x(
                LpVar::Fill { recipe: r as usize, slot: s as usize, alt: a as usize },
            )
        } else {
            0
        }
}

/// What fills a slot of the material at `i`.
pub open spec fn fills_slot(
    w: Scale,
    alts: Seq<(usize, Scalar)>,
    i: int,
    r: int,
    s: int,
    x: spec_fn(LpVar) -> int,
) -> int {
    total(
        alts.len(),
        alt_parts(w, alts, i, r, s, x),
    )
}

pub open spec fn filled_by(
    w: Scale,
    f: Feed,
    i: int,
    r: int,
    s: int,
    x: spec_fn(LpVar) -> int,
) -> int {
    match f {
        Feed::Choice { alts } => fills_slot(w, alts, i, r, s, x),
        _ => 0,
    }
}

pub open spec fn filled_parts(
    w: Scale,
    e: Entry,
    i: int,
    r: int,
    x: spec_fn(LpVar) -> int,
) -> spec_fn(int) -> int {
    |s: int| filled_by(w, e.inputs[s], i, r, s, x)
}

/// What fills the slots with a choice of the recipe at `r` of the material at `i`.
pub open spec fn fills(w: Scale, e: Entry, i: int, r: int, x: spec_fn(LpVar) -> int) -> int {
    total(
        e.inputs.len(),
        filled_parts(w, e, i, r, x),
    )
}

impl<'a, A: Arithmetic> Exact<'a, A> {
    /// The coefficients of the material at `i` in a recipe are within range.
    pub open spec fn entry_fits(self, w: Scale, e: Entry, i: int) -> bool {
        &&& forall|k: int|
            0 <= k <= e.outputs.len() ==> (w.fits)(#[trigger] self.made_to(e.outputs, i, k))
        &&& forall|k: int| 0 <= k < e.outputs.len() ==> (w.fits)((#[trigger] e.outputs[k]).1)
        &&& forall|k: int| 0 <= k <= e.inputs.len() ==> (w.fits)(#[trigger] self.net_to(e, i, k))
        &&& (w.fits)(self.ar.abs_spec(self.net(e, i)))
        &&& forall|s: int| 0 <= s < e.inputs.len() ==> self.feed_fits(w, #[trigger] e.inputs[s])
    }

    pub open spec fn feed_fits(self, w: Scale, f: Feed) -> bool {
        match f {
            Feed::Direct { material, qty } => (w.fits)(qty),
            Feed::Choice { alts } => self.alts_fit(w, alts),
        }
    }

    pub open spec fn alts_fit(self, w: Scale, alts: Seq<(usize, Scalar)>) -> bool {
        forall|a: int|
            0 <= a < alts.len() ==> (w.fits)((#[trigger] alts[a]).1) && (w.fits)(
                self.ar.minus_spec(self.ar.ratio_spec(0, 1), alts[a].1),
            )
    }

    proof fn made_is_sum(self, w: Scale, e: Entry, i: int, k: int)
        requires
            w.measures(*self.ar),
            self.entry_fits(w, e, i),
            0 <= k <= e.outputs.len(),
        ensures
            (w.of)(self.made_to(e.outputs, i, k)) == total(
                k as nat,
                made_parts(w, e, i),
            ),
        decreases k,
    {
        let f = made_parts(w, e, i);
        if k == 0 {
            w.whole(*self.ar, 0);
        } else {
            self.made_is_sum(w, e, i, k - 1);
            total_step(k as nat, f);
            assert((w.fits)(self.made_to(e.outputs, i, k - 1)));
            assert((w.fits)(self.made_to(e.outputs, i, k)));
            assert((w.fits)(e.outputs[k - 1].1));
        }
    }

    proof fn net_is_sum(self, w: Scale, e: Entry, i: int, k: int)
        requires
            w.measures(*self.ar),
            self.entry_fits(w, e, i),
            0 <= k <= e.inputs.len(),
        ensures
            (w.of)(self.net_to(e, i, k)) == makes(w, e, i) - total(
                k as nat,
                taken_parts(w, e, i),
            ),
        decreases k,
    {
        let f = taken_parts(w, e, i);
        if k == 0 {
            self.made_is_sum(w, e, i, e.outputs.len() as int);
        } else {
            self.net_is_sum(w, e, i, k - 1);
            total_step(k as nat, f);
            assert((w.fits)(self.net_to(e, i, k - 1)));
            assert((w.fits)(self.net_to(e, i, k)));
            assert(self.feed_fits(w, e.inputs[k - 1]));
        }
    }

    proof fn op_terms_sum(self, w: Scale, recipes: Seq<Entry>, i: int, r: int, x: spec_fn(LpVar) -> int)
        requires
            w.measures(*self.ar),
            0 <= r <= recipes.len(),
            forall|k: int| 0 <= k < recipes.len() ==> self.entry_fits(w, #[trigger] recipes[k], i),
        ensures
            value(w, self.op_terms_to(recipes, i, r), x) == total(
                r as nat,
                |r: int|
                    (makes(w, recipes[r], i) - takes(w, recipes[r], i)) * x(LpVar::Ops(r as usize)),
            ),
        decreases r,
    {
        let f = |r: int|
            (makes(w, recipes[r], i) - takes(w, recipes[r], i)) * x(LpVar::Ops(r as usize));
        if r > 0 {
            self.op_terms_sum(w, recipes, i, r - 1, x);
            let e = recipes[r - 1];
            let c = self.net(e, i);
            assert(self.entry_fits(w, recipes[r - 1], i));
            self.net_is_sum(w, e, i, e.inputs.len() as int);
            assert((w.fits)(self.net_to(e, i, e.inputs.len() as int)));
            assert((w.of)(c) == makes(w, e, i) - takes(w, e, i));
            total_step(r as nat, f);
            value_push(
                w,
                self.op_terms_to(recipes, i, r - 1),
                (LpVar::Ops((r - 1) as usize), c),
                x,
            );
            let v = x(LpVar::Ops((r - 1) as usize));
            if (w.of)(c) == 0 {
                assert((w.of)(c) * v == 0) by (nonlinear_arith)
                    requires
                        (w.of)(c) == 0,
                ;
            }
        }
    }

    proof fn alt_terms_sum(
        self,
        w: Scale,
        alts: Seq<(usize, Scalar)>,
        i: int,
        r: int,
        s: int,
        a: int,
        x: spec_fn(LpVar) -> int,
    )
        requires
            w.measures(*self.ar),
            self.alts_fit(w, alts),
            0 <= a <= alts.len(),
        ensures
            value(w, self.alt_terms_to(alts, i, r as usize, s as usize, a), x) == -total(
                a as nat,
                alt_parts(w, alts, i, r, s, x),
            ),
        decreases a,
    {
        let f = alt_parts(w, alts, i, r, s, x);
        if a > 0 {
            self.alt_terms_sum(w, alts, i, r, s, a - 1, x);
            total_step(a as nat, f);
            let q = alts[a - 1].1;
            let c = self.ar.minus_spec(self.ar.ratio_spec(0, 1), q);
            let var = LpVar::Fill { recipe: r as usize, slot: s as usize, alt: (a - 1) as usize };
            w.whole(*self.ar, 0);
            assert((w.fits)(alts[a - 1].1));
            assert((w.fits)(c));
            assert((w.of)(c) == -(w.of)(q));
            value_push(
                w,
                self.alt_terms_to(alts, i, r as usize, s as usize, a - 1),
                (var, c),
                x,
            );
            let v = x(var);
            let n = (w.of)(q);
            assert((-n) * v == -(n * v)) by (nonlinear_arith);
        }
    }

    proof fn slot_terms_sum(self, w: Scale, e: Entry, i: int, r: int, s: int, x: spec_fn(LpVar) -> int)
        requires
            w.measures(*self.ar),
            self.entry_fits(w, e, i),
            0 <= s <= e.inputs.len(),
        ensures
            value(w, self.slot_terms_to(e, i, r as usize, s), x) == -total(
                s as nat,
                filled_parts(w, e, i, r, x),
            ),
        decreases s,
    {
        let f = filled_parts(w, e, i, r, x);
        if s > 0 {
            self.slot_terms_sum(w, e, i, r, s - 1, x);
            total_step(s as nat, f);
            assert(self.feed_fits(w, e.inputs[s - 1]));
            if let Feed::Choice { alts } = e.inputs[s - 1] {
                self.alt_terms_sum(w, alts, i, r, s - 1, alts.len() as int, x);
                value_sum(
                    w,
                    self.slot_terms_to(e, i, r as usize, s - 1),
                    self.alt_terms_to(alts, i, r as usize, (s - 1) as usize, alts.len() as int),
                    x,
                );
            }
        }
    }

    proof fn fill_terms_sum(self, w: Scale, recipes: Seq<Entry>, i: int, r: int, x: spec_fn(LpVar) -> int)
        requires
            w.measures(*self.ar),
            0 <= r <= recipes.len(),
            forall|k: int| 0 <= k < recipes.len() ==> self.entry_fits(w, #[trigger] recipes[k], i),
        ensures
            value(w, self.fill_terms_to(recipes, i, r), x) == -total(
                r as nat,
                |r: int| fills(w, recipes[r], i, r, x),
            ),
        decreases r,
    {
        let f = |r: int| fills(w, recipes[r], i, r, x);
        if r > 0 {
            self.fill_terms_sum(w, recipes, i, r - 1, x);
            total_step(r as nat, f);
            let e = recipes[r - 1];
            assert(self.entry_fits(w, recipes[r - 1], i));
            self.slot_terms_sum(w, e, i, r - 1, e.inputs.len() as int, x);
            value_sum(
                w,
                self.fill_terms_to(recipes, i, r - 1),
                self.slot_terms_to(e, i, (r - 1) as usize, e.inputs.len() as int),
                x,
            );
        }
    }

    /// The condition on a material: what is imported and what the operations make,
    /// less what they take and what fills their slots, comes at least to what is
    /// asked for, which is the rate for the target and nothing for any other.
    pub proof fn balances_mean(
        self,
        w: Scale,
        materials: Seq<MaterialId>,
        recipes: Seq<Entry>,
        i: int,
        x: spec_fn(LpVar) -> int,
    )
        requires
            w.measures(*self.ar),
            0 <= i < materials.len(),
            forall|k: int| 0 <= k < recipes.len() ==> self.entry_fits(w, #[trigger] recipes[k], i),
        ensures
            ({
                let c = self.conditions(materials, recipes)[i];
                &&& value(w, c.terms, x) == w.unit * x(LpVar::Ext(i as usize)) + total(
                    recipes.len(),
                    |r: int|
                        (makes(w, recipes[r], i) - takes(w, recipes[r], i)) * x(
                            LpVar::Ops(r as usize),
                        ),
                ) - total(recipes.len(), |r: int| fills(w, recipes[r], i, r, x))
                &&& !c.exact
                &&& (w.of)(c.rhs) == if materials[i] == self.target {
                    (w.of)(self.rate_per_min)
                } else {
                    0
                }
            }),
    {
        let n = recipes.len() as int;
        let a = self.op_terms_to(recipes, i, n);
        let b = self.fill_terms_to(recipes, i, n);
        self.op_terms_sum(w, recipes, i, n, x);
        self.fill_terms_sum(w, recipes, i, n, x);
        value_sum(w, a, b, x);
        value_push(w, a + b, (LpVar::Ext(i as usize), self.ar.ratio_spec(1, 1)), x);
        w.whole(*self.ar, 1);
        w.whole(*self.ar, 0);
        assert(self.conditions(materials, recipes)[i] == self.balance(materials, recipes, i));
    }

    /// The condition on a slot with a choice: each operation fills it once.
    pub open spec fn fills_once(
        self,
        w: Scale,
        alts: Seq<(usize, Scalar)>,
        r: int,
        s: int,
        c: Condition,
        x: spec_fn(LpVar) -> int,
    ) -> bool {
        &&& value(w, c.terms, x) == w.unit * (total(
            alts.len(),
            |a: int| x(LpVar::Fill { recipe: r as usize, slot: s as usize, alt: a as usize }),
        ) - x(LpVar::Ops(r as usize)))
        &&& c.exact
        &&& (w.of)(c.rhs) == 0
    }

    proof fn filling_fills(
        self,
        w: Scale,
        alts: Seq<(usize, Scalar)>,
        r: int,
        s: int,
        x: spec_fn(LpVar) -> int,
    )
        requires
            w.measures(*self.ar),
            (w.fits)(self.ar.minus_spec(self.ar.ratio_spec(0, 1), self.ar.ratio_spec(1, 1))),
        ensures
            self.fills_once(w, alts, r, s, self.filling(alts, r as usize, s as usize), x),
    {
        let one = self.ar.ratio_spec(1, 1);
        let less = self.ar.minus_spec(self.ar.ratio_spec(0, 1), one);
        w.whole(*self.ar, 1);
        w.whole(*self.ar, 0);
        let u = w.unit;
        let terms = Seq::new(
            alts.len(),
            |a: int|
                (LpVar::Fill { recipe: r as usize, slot: s as usize, alt: a as usize }, one),
        );
        value_listed(w, terms, x);
        let f = |a: int| x(LpVar::Fill { recipe: r as usize, slot: s as usize, alt: a as usize });
        let h = |a: int| u * f(a);
        total_same(alts.len(), |i: int| (w.of)(terms[i].1) * x(terms[i].0), h);
        total_times(alts.len(), f, u);
        value_push(w, terms, (LpVar::Ops(r as usize), less), x);
        assert(self.filling(alts, r as usize, s as usize).terms =~= terms.push(
            (LpVar::Ops(r as usize), less),
        ));
        let t = total(alts.len(), f);
        let v = x(LpVar::Ops(r as usize));
        assert(u * t + (-u) * v == u * (t - v)) by (nonlinear_arith);
    }

    /// Every slot with a choice has its condition.
    pub proof fn choices_are_filled(
        self,
        w: Scale,
        materials: Seq<MaterialId>,
        recipes: Seq<Entry>,
        r: int,
        s: int,
        x: spec_fn(LpVar) -> int,
    ) -> (k: int)
        requires
            w.measures(*self.ar),
            (w.fits)(self.ar.minus_spec(self.ar.ratio_spec(0, 1), self.ar.ratio_spec(1, 1))),
            0 <= r < recipes.len(),
            0 <= s < recipes[r].inputs.len(),
            recipes[r].inputs[s] is Choice,
        ensures
            materials.len() <= k < self.conditions(materials, recipes).len(),
            recipes[r].inputs[s] matches Feed::Choice { alts } && self.fills_once(
                w,
                alts,
                r,
                s,
                self.conditions(materials, recipes)[k],
                x,
            ),
    {
        let at = self.filling_at(recipes, r, s, recipes.len() as int);
        let alts = recipes[r].inputs[s]->alts;
        self.filling_fills(w, alts, r, s, x);
        assert(self.conditions(materials, recipes)[materials.len() + at] == self.filling(
            alts,
            r as usize,
            s as usize,
        ));
        materials.len() + at
    }

    proof fn filling_at(self, recipes: Seq<Entry>, r: int, s: int, n: int) -> (k: int)
        requires
            0 <= r < n <= recipes.len(),
            0 <= s < recipes[r].inputs.len(),
            recipes[r].inputs[s] is Choice,
        ensures
            0 <= k < self.fillings_to(recipes, n).len(),
            self.fillings_to(recipes, n)[k] == self.filling(
                recipes[r].inputs[s]->alts,
                r as usize,
                s as usize,
            ),
        decreases n,
    {
        if r < n - 1 {
            self.filling_at(recipes, r, s, n - 1)
        } else {
            self.fillings_to(recipes, n - 1).len() + self.slot_filling_at(
                recipes[r],
                r as usize,
                s,
                recipes[r].inputs.len() as int,
            )
        }
    }

    proof fn slot_filling_at(self, e: Entry, r: usize, s: int, n: int) -> (k: int)
        requires
            0 <= s < n <= e.inputs.len(),
            e.inputs[s] is Choice,
        ensures
            0 <= k < self.slot_fillings_to(e, r, n).len(),
            self.slot_fillings_to(e, r, n)[k] == self.filling(e.inputs[s]->alts, r, s as usize),
        decreases n,
    {
        if s < n - 1 {
            self.slot_filling_at(e, r, s, n - 1)
        } else {
            self.slot_fillings_to(e, r, n - 1).len() as int
        }
    }

    /// There is a condition for each material, one for each slot with a choice, and
    /// no other.
    pub proof fn conditions_are_these(self, materials: Seq<MaterialId>, recipes: Seq<Entry>)
        ensures
            self.conditions(materials, recipes).len() == materials.len() + total(
                recipes.len(),
                |r: int|
                    total(
                        recipes[r].inputs.len(),
                        |s: int|
                            if recipes[r].inputs[s] is Choice {
                                1
                            } else {
                                0
                            },
                    ),
            ),
    {
        self.fillings_count(recipes, recipes.len() as int);
    }

    proof fn fillings_count(self, recipes: Seq<Entry>, n: int)
        requires
            0 <= n <= recipes.len(),
        ensures
            self.fillings_to(recipes, n).len() == total(
                n as nat,
                |r: int|
                    total(
                        recipes[r].inputs.len(),
                        |s: int|
                            if recipes[r].inputs[s] is Choice {
                                1
                            } else {
                                0
                            },
                    ),
            ),
        decreases n,
    {
        let f = |r: int|
            total(
                recipes[r].inputs.len(),
                |s: int|
                    if recipes[r].inputs[s] is Choice {
                        1
                    } else {
                        0
                    },
            );
        if n > 0 {
            self.fillings_count(recipes, n - 1);
            total_step(n as nat, f);
            let e = recipes[n - 1];
            self.slot_fillings_count(e, (n - 1) as usize, e.inputs.len() as int);
            total_same(
                e.inputs.len(),
                |s: int|
                    if e.inputs[s] is Choice {
                        1
                    } else {
                        0
                    },
                |s: int|
                    if recipes[n - 1].inputs[s] is Choice {
                        1
                    } else {
                        0
                    },
            );
        }
    }

    proof fn slot_fillings_count(self, e: Entry, r: usize, n: int)
        requires
            0 <= n <= e.inputs.len(),
        ensures
            self.slot_fillings_to(e, r, n).len() == total(
                n as nat,
                |s: int|
                    if e.inputs[s] is Choice {
                        1
                    } else {
                        0
                    },
            ),
        decreases n,
    {
        if n > 0 {
            self.slot_fillings_count(e, r, n - 1);
            total_step(
                n as nat,
                |s: int|
                    if e.inputs[s] is Choice {
                        1
                    } else {
                        0
                    },
            );
        }
    }
}

proof fn total_times(n: nat, f: spec_fn(int) -> int, c: int)
    ensures
        total(n, |i: int| c * f(i)) == c * total(n, f),
    decreases n,
{
    let h = |i: int| c * f(i);
    if n > 0 {
        total_step(n, f);
        total_step(n, h);
        total_times((n - 1) as nat, f, c);
        let t = total((n - 1) as nat, f);
        let v = f(n - 1);
        assert(c * t + c * v == c * (t + v)) by (nonlinear_arith);
    } else {
        assert(c * 0 == 0) by (nonlinear_arith);
    }
}

/// A number is rounded down in one way.
pub proof fn floors_once(x: int, y: int, n: int, d: int)
    requires
        floors(x, n, d),
        floors(y, n, d),
        d > 0,
    ensures
        x == y,
{
    assert(x == y) by (nonlinear_arith)
        requires
            x * d <= n < x * d + d,
            y * d <= n < y * d + d,
            d > 0,
    ;
}

} // verus!

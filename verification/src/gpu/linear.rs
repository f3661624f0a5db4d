//! The flow of material under an assignment, as a system of linear equations.
//!
//! With the recipe of each material fixed, the operations `x` of the materials
//! solve `A x = rhs`, where `A` is one on the diagonal less what operations use
//! of a material, divided by what its recipe gives, and `rhs` is what is asked
//! for, divided likewise. The rows are stored one after the other without their
//! zeros. The system is solved by relaxation: `x` moves by `omega` times what is
//! missing.
use vstd::prelude::*;

use crate::gpu::subgraph::{CandidateTable, SubgraphData};
use crate::list::filled;
use crate::order::sort_positions;
use crate::scalar::{Arithmetic, Scalar};
use crate::text::joined;

verus! {

/// The system of an assignment.
pub struct FlowSystem {
    pub n: usize,
    pub out_qty: Vec<Scalar>,
    pub demand: Vec<Scalar>,
    /// Where each row starts and ends in the two lists below.
    pub row_ptr: Vec<usize>,
    pub col_idx: Vec<u32>,
    pub values: Vec<Scalar>,
    pub rhs: Vec<Scalar>,
}

/// A row on its way: what operations of other materials use of it.
pub open spec fn owned_to(sg: SubgraphData, cand: CandidateTable, from: int, to: int) -> Seq<
    (u32, Scalar),
>
    decreases to - from,
{
    if to <= from {
        Seq::empty()
    } else {
        let rest = owned_to(sg, cand, from, to - 1);
        let j = cand.owner@[sg.cons_recipes@[to - 1] as int];
        if j == u32::MAX {
            rest
        } else {
            rest.push((j, sg.cons_qty@[to - 1]))
        }
    }
}

/// Uses by column.
pub open spec fn column_order(s: Seq<(u32, Scalar)>) -> spec_fn(int, int) -> bool {
    |i: int, j: int| s[i].0 < s[j].0
}

/// The first `k` uses, with those of one column added up where they stand side by
/// side.
pub open spec fn merged_to<B: Arithmetic>(single: B, s: Seq<(u32, Scalar)>, k: int) -> Seq<
    (u32, Scalar),
>
    decreases k,
{
    if k <= 0 {
        Seq::empty()
    } else {
        let rest = merged_to(single, s, k - 1);
        let (j, q) = s[k - 1];
        if rest.len() > 0 && rest.last().0 == j {
            rest.drop_last().push((j, single.plus_spec(rest.last().1, q)))
        } else {
            rest.push((j, q))
        }
    }
}

/// What operations use of the material of row `i`, by column.
pub open spec fn row_uses<B: Arithmetic>(single: B, sg: SubgraphData, cand: CandidateTable, i: int) -> Seq<
    (u32, Scalar),
> {
    let owned = owned_to(
        sg,
        cand,
        sg.cons_offsets@[i] as int,
        sg.cons_offsets@[i + 1] as int,
    );
    let sorted = crate::order::sorted(owned, column_order(owned));
    merged_to(single, sorted, sorted.len() as int)
}

/// The coefficients of the first `k` uses of a row but for its own, and what the
/// own ones leave of the diagonal.
pub open spec fn coeffs_to<B: Arithmetic>(
    single: B,
    uses: Seq<(u32, Scalar)>,
    out: Scalar,
    i: int,
    k: int,
) -> (Seq<(u32, Scalar)>, Scalar)
    decreases k,
{
    if k <= 0 {
        (Seq::empty(), single.ratio_spec(1, 1))
    } else {
        let (list, diag) = coeffs_to(single, uses, out, i, k - 1);
        let (j, q) = uses[k - 1];
        let c = single.over_spec(single.minus_spec(single.ratio_spec(0, 1), q), out);
        if j == i {
            (list, single.plus_spec(diag, c))
        } else {
            (list.push((j, c)), diag)
        }
    }
}

/// Row `i` of the system: the diagonal comes last. A material without a recipe
/// has no operations.
pub open spec fn row<B: Arithmetic>(single: B, sg: SubgraphData, cand: CandidateTable, i: int) -> Seq<
    (u32, Scalar),
> {
    let out = cand.out_qty@[i];
    if single.lt_spec(single.ratio_spec(0, 1), out) {
        let uses = row_uses(single, sg, cand, i);
        let (list, diag) = coeffs_to(single, uses, out, i, uses.len() as int);
        list.push((i as u32, diag))
    } else {
        seq![(i as u32, single.ratio_spec(1, 1))]
    }
}

/// The right side of row `i`.
pub open spec fn right_side<B: Arithmetic>(
    single: B,
    cand: CandidateTable,
    demand: Seq<Scalar>,
    i: int,
) -> Scalar {
    let out = cand.out_qty@[i];
    if single.lt_spec(single.ratio_spec(0, 1), out) {
        single.over_spec(demand[i], out)
    } else {
        single.ratio_spec(0, 1)
    }
}

/// The first `n` rows, one after the other.
pub open spec fn rows_to<B: Arithmetic>(
    single: B,
    sg: SubgraphData,
    cand: CandidateTable,
    n: int,
) -> Seq<(u32, Scalar)>
    decreases n,
{
    if n <= 0 {
        Seq::empty()
    } else {
        rows_to(single, sg, cand, n - 1) + row(single, sg, cand, n - 1)
    }
}

/// Entries of rows `from` to `to`, each times the value of its column, added up.
pub open spec fn dot_to<B: Arithmetic>(
    single: B,
    sys: FlowSystem,
    x: Seq<Scalar>,
    from: int,
    to: int,
) -> Scalar
    decreases to - from,
{
    if to <= from {
        single.ratio_spec(0, 1)
    } else {
        single.plus_spec(
            dot_to(single, sys, x, from, to - 1),
            single.times_spec(sys.values@[to - 1], x[sys.col_idx@[to - 1] as int]),
        )
    }
}

/// Row `i` of the product of the system and `x`.
pub open spec fn product<B: Arithmetic>(single: B, sys: FlowSystem, x: Seq<Scalar>, i: int) -> Scalar {
    dot_to(single, sys, x, sys.row_ptr@[i] as int, sys.row_ptr@[i + 1] as int)
}

/// What is used of the material of row `i` when the operations are `x`.
pub open spec fn use_of<B: Arithmetic>(single: B, sys: FlowSystem, x: Seq<Scalar>, i: int) -> Scalar {
    single.times_spec(
        single.minus_spec(x[i], product(single, sys, x, i)),
        sys.out_qty@[i],
    )
}

/// The score of the first `i` rows: what is missing, weighed, and a little for
/// operations.
pub open spec fn score_to<B: Arithmetic>(
    single: B,
    sys: FlowSystem,
    x: Seq<Scalar>,
    weights: Seq<Scalar>,
    ops_penalty: Scalar,
    i: int,
) -> Scalar
    decreases i,
{
    if i <= 0 {
        single.ratio_spec(0, 1)
    } else {
        let rest = score_to(single, sys, x, weights, ops_penalty, i - 1);
        let made = single.times_spec(x[i - 1], sys.out_qty@[i - 1]);
        let missing = single.most_spec(
            single.minus_spec(
                single.plus_spec(sys.demand@[i - 1], use_of(single, sys, x, i - 1)),
                made,
            ),
            single.ratio_spec(0, 1),
        );
        single.plus_spec(
            rest,
            single.plus_spec(
                single.times_spec(missing, weights[i - 1]),
                single.times_spec(ops_penalty, x[i - 1]),
            ),
        )
    }
}

/// Some of the first `i` values grew beyond measure.
pub open spec fn diverges_to<B: Arithmetic>(single: B, x: Seq<Scalar>, i: int) -> bool
    decreases i,
{
    i > 0 && (diverges_to(single, x, i - 1) || single.lt_spec(
        single.ratio_spec(100_000_000_000, 1),
        x[i - 1],
    ))
}

/// One step of the relaxation.
pub open spec fn relaxed<B: Arithmetic>(single: B, sys: FlowSystem, omega: Scalar, x: Seq<Scalar>) -> Seq<
    Scalar,
> {
    Seq::new(
        x.len(),
        |i: int|
            single.plus_spec(
                x[i],
                single.times_spec(
                    omega,
                    single.minus_spec(sys.rhs@[i], product(single, sys, x, i)),
                ),
            ),
    )
}

/// The values after `k` steps from nothing.
pub open spec fn relaxed_times<B: Arithmetic>(single: B, sys: FlowSystem, omega: Scalar, k: nat) -> Seq<
    Scalar,
>
    decreases k,
{
    if k == 0 {
        Seq::new(sys.n as nat, |i: int| single.ratio_spec(0, 1))
    } else {
        relaxed(single, sys, omega, relaxed_times(single, sys, omega, (k - 1) as nat))
    }
}

impl FlowSystem {
    /// The rows lie one after the other, and columns are columns of the system.
    pub open spec fn wf(self) -> bool {
        &&& self.out_qty@.len() == self.n
        &&& self.demand@.len() == self.n
        &&& self.rhs@.len() == self.n
        &&& self.row_ptr@.len() == self.n + 1
        &&& self.values@.len() == self.col_idx@.len()
        &&& self.row_ptr@[0] == 0
        &&& self.row_ptr@[self.n as int] == self.col_idx@.len()
        &&& forall|i: int, j: int|
            0 <= i <= j <= self.n ==> #[trigger] self.row_ptr@[i] <= #[trigger] self.row_ptr@[j]
        &&& forall|k: int| 0 <= k < self.col_idx@.len() ==> #[trigger] self.col_idx@[k] < self.n
    }

    /// The system is that of an assignment.
    pub open spec fn shows<B: Arithmetic>(
        self,
        single: B,
        sg: SubgraphData,
        cand: CandidateTable,
        demand: Seq<Scalar>,
    ) -> bool {
        let n = sg.materials@.len() as int;
        let all = rows_to(single, sg, cand, n);
        &&& self.n == n
        &&& self.out_qty@ == cand.out_qty@
        &&& self.demand@ == demand
        &&& forall|i: int|
            0 <= i <= n ==> #[trigger] self.row_ptr@[i] == rows_to(single, sg, cand, i).len()
        &&& self.col_idx@ == all.map_values(|e: (u32, Scalar)| e.0)
        &&& self.values@ == all.map_values(|e: (u32, Scalar)| e.1)
        &&& self.rhs@ == Seq::new(n as nat, |i: int| right_side(single, cand, demand, i))
    }
}

fn list_owned(sg: &SubgraphData, cand: &CandidateTable, i: usize) -> (r: Vec<(u32, Scalar)>)
    requires
        sg.wf(),
        cand.fits(*sg),
        i < sg.materials@.len(),
    ensures
        r@ == owned_to(
            *sg,
            *cand,
            sg.cons_offsets@[i as int] as int,
            sg.cons_offsets@[i + 1] as int,
        ),
        forall|k: int| 0 <= k < r@.len() ==> (#[trigger] r@[k]).0 < sg.materials@.len(),
{
    let from: usize = sg.cons_offsets[i];
    let to: usize = sg.cons_offsets[i + 1];
    proof {
        let n = sg.materials@.len() as int;
        assert(sg.cons_offsets@[i as int] <= sg.cons_offsets@[i + 1]);
        assert(sg.cons_offsets@[i + 1] <= sg.cons_offsets@[n]);
    }
    let mut r: Vec<(u32, Scalar)> = Vec::new();
    let mut k: usize = from;
    while k < to
        invariant
            from <= k <= to,
            to <= sg.cons_recipes@.len(),
            sg.wf(),
            cand.fits(*sg),
            r@ == owned_to(*sg, *cand, from as int, k as int),
            forall|x: int| 0 <= x < r@.len() ==> (#[trigger] r@[x]).0 < sg.materials@.len(),
        decreases to - k,
    {
        let rec: u32 = sg.cons_recipes[k];
        assert(sg.cons_recipes@[k as int] < sg.recipes@.len());
        let j: u32 = cand.owner[rec as usize];
        if j != u32::MAX {
            r.push((j, sg.cons_qty[k]));
        }
        k += 1;
    }
    r
}

fn list_uses<B: Arithmetic>(single: &B, sg: &SubgraphData, cand: &CandidateTable, i: usize) -> (r: Vec<
    (u32, Scalar),
>)
    requires
        sg.wf(),
        cand.fits(*sg),
        i < sg.materials@.len(),
    ensures
        r@ == row_uses(*single, *sg, *cand, i as int),
        forall|k: int| 0 <= k < r@.len() ==> (#[trigger] r@[k]).0 < sg.materials@.len(),
{
    let owned = list_owned(sg, cand, i);
    let ghost before = column_order(owned@);
    let less = |a: usize, b: usize| -> (r: bool)
        requires
            a < owned@.len() && b < owned@.len(),
        ensures
            r == (owned@[a as int].0 < owned@[b as int].0),
        { owned[a].0 < owned[b].0 };
    let p = sort_positions(owned.len(), less, Ghost(before));
    proof {
        crate::order::sorted_is(owned@, before, p@);
    }
    let ghost sorted = crate::order::sorted(owned@, before);
    let mut r: Vec<(u32, Scalar)> = Vec::new();
    let mut k: usize = 0;
    while k < p.len()
        invariant
            k <= p@.len(),
            crate::order::stable_order(before, owned@.len() as int, p@),
            sorted == crate::order::listed(owned@, p@),
            forall|x: int| 0 <= x < owned@.len() ==> (#[trigger] owned@[x]).0 < sg.materials@.len(),
            r@ == merged_to(*single, sorted, k as int),
            forall|x: int| 0 <= x < r@.len() ==> (#[trigger] r@[x]).0 < sg.materials@.len(),
        decreases p@.len() - k,
    {
        let (j, q): (u32, Scalar) = owned[p[k]];
        assert(sorted[k as int] == (j, q));
        let n: usize = r.len();
        let ghost had = r@;
        if n > 0 && r[n - 1].0 == j {
            let sum = single.plus(r[n - 1].1, q);
            r[n - 1] = (j, sum);
            assert(r@ =~= had.drop_last().push((j, sum)));
        } else {
            r.push((j, q));
        }
        k += 1;
    }
    r
}

fn list_row<B: Arithmetic>(single: &B, sg: &SubgraphData, cand: &CandidateTable, i: usize) -> (r: Vec<
    (u32, Scalar),
>)
    requires
        sg.wf(),
        cand.fits(*sg),
        i < sg.materials@.len(),
    ensures
        r@ == row(*single, *sg, *cand, i as int),
        forall|k: int| 0 <= k < r@.len() ==> (#[trigger] r@[k]).0 < sg.materials@.len(),
{
    let zero = single.ratio(0, 1);
    let out = cand.out_qty[i];
    let mut r: Vec<(u32, Scalar)> = Vec::new();
    if single.lt(zero, out) {
        let uses = list_uses(single, sg, cand, i);
        let mut diag = single.ratio(1, 1);
        let mut k: usize = 0;
        while k < uses.len()
            invariant
                k <= uses@.len(),
                i < sg.materials@.len(),
                zero == single.ratio_spec(0, 1),
                forall|x: int| 0 <= x < uses@.len() ==> (#[trigger] uses@[x]).0 < sg.materials@.len(),
                (r@, diag) == coeffs_to(*single, uses@, out, i as int, k as int),
                forall|x: int| 0 <= x < r@.len() ==> (#[trigger] r@[x]).0 < sg.materials@.len(),
            decreases uses@.len() - k,
        {
            let (j, q): (u32, Scalar) = uses[k];
            assert(uses@[k as int].0 < sg.materials@.len());
            let c = single.over(single.minus(zero, q), out);
            if j as usize == i {
                diag = single.plus(diag, c);
            } else {
                r.push((j, c));
            }
            k += 1;
        }
        r.push((i as u32, diag));
    } else {
        r.push((i as u32, single.ratio(1, 1)));
        assert(r@ =~= seq![(i as u32, single.ratio_spec(1, 1))]);
    }
    r
}

impl FlowSystem {
    /// The system of an assignment.
    pub fn from_candidate<B: Arithmetic>(
        single: &B,
        sg: &SubgraphData,
        cand: &CandidateTable,
        demand: &Vec<Scalar>,
    ) -> (r: Self)
        requires
            sg.wf(),
            cand.fits(*sg),
            demand@.len() == sg.materials@.len(),
        ensures
            r.wf(),
            r.shows(*single, *sg, *cand, demand@),
    {
        let n: usize = sg.materials.len();
        let zero = single.ratio(0, 1);
        let mut row_ptr: Vec<usize> = Vec::new();
        let mut col_idx: Vec<u32> = Vec::new();
        let mut values: Vec<Scalar> = Vec::new();
        let mut rhs: Vec<Scalar> = Vec::new();
        let mut out_qty: Vec<Scalar> = Vec::new();
        let mut asked: Vec<Scalar> = Vec::new();
        row_ptr.push(0);
        assert(col_idx@ =~= rows_to(*single, *sg, *cand, 0).map_values(|e: (u32, Scalar)| e.0));
        assert(values@ =~= rows_to(*single, *sg, *cand, 0).map_values(|e: (u32, Scalar)| e.1));
        let mut i: usize = 0;
        while i < n
            invariant
                i <= n,
                n == sg.materials@.len(),
                sg.wf(),
                cand.fits(*sg),
                demand@.len() == n,
                zero == single.ratio_spec(0, 1),
                out_qty@ == cand.out_qty@.take(i as int),
                asked@ == demand@.take(i as int),
                row_ptr@.len() == i + 1,
                forall|k: int|
                    0 <= k <= i ==> #[trigger] row_ptr@[k] == rows_to(*single, *sg, *cand, k).len(),
                forall|a: int, b: int|
                    0 <= a <= b <= i ==> #[trigger] row_ptr@[a] <= #[trigger] row_ptr@[b],
                col_idx@ == rows_to(*single, *sg, *cand, i as int).map_values(
                    |e: (u32, Scalar)| e.0,
                ),
                values@ == rows_to(*single, *sg, *cand, i as int).map_values(
                    |e: (u32, Scalar)| e.1,
                ),
                forall|k: int| 0 <= k < col_idx@.len() ==> #[trigger] col_idx@[k] < n,
                rhs@.len() == i,
                forall|k: int|
                    0 <= k < i ==> #[trigger] rhs@[k] == right_side(*single, *cand, demand@, k),
            decreases n - i,
        {
            let list = list_row(single, sg, cand, i);
            let ghost before = rows_to(*single, *sg, *cand, i as int);
            let mut k: usize = 0;
            assert(col_idx@ =~= (before + list@.take(0)).map_values(|e: (u32, Scalar)| e.0));
            assert(values@ =~= (before + list@.take(0)).map_values(|e: (u32, Scalar)| e.1));
            while k < list.len()
                invariant
                    k <= list@.len(),
                    n == sg.materials@.len(),
                    forall|x: int|
                        0 <= x < list@.len() ==> (#[trigger] list@[x]).0 < sg.materials@.len(),
                    col_idx@ == (before + list@.take(k as int)).map_values(
                        |e: (u32, Scalar)| e.0,
                    ),
                    values@ == (before + list@.take(k as int)).map_values(|e: (u32, Scalar)| e.1),
                    forall|x: int| 0 <= x < col_idx@.len() ==> #[trigger] col_idx@[x] < n,
                decreases list@.len() - k,
            {
                let (j, c): (u32, Scalar) = list[k];
                assert(list@[k as int].0 < n);
                col_idx.push(j);
                values.push(c);
                k += 1;
                assert(col_idx@ =~= (before + list@.take(k as int)).map_values(
                    |e: (u32, Scalar)| e.0,
                ));
                assert(values@ =~= (before + list@.take(k as int)).map_values(
                    |e: (u32, Scalar)| e.1,
                ));
            }
            assert(list@.take(list@.len() as int) =~= list@);
            row_ptr.push(col_idx.len());
            assert(rows_to(*single, *sg, *cand, i + 1) == before + list@);
            assert(col_idx@.len() == rows_to(*single, *sg, *cand, i + 1).len());
            assert forall|a: int, b: int| 0 <= a <= b <= i + 1 implies #[trigger] row_ptr@[a]
                <= #[trigger] row_ptr@[b] by {
                assert(row_ptr@[i as int] == before.len());
                if a <= i {
                    assert(row_ptr@[a] <= row_ptr@[i as int]);
                }
            }
            let out = cand.out_qty[i];
            rhs.push(
                if single.lt(zero, out) {
                    single.over(demand[i], out)
                } else {
                    zero
                },
            );
            out_qty.push(out);
            asked.push(demand[i]);
            i += 1;
            assert(out_qty@ =~= cand.out_qty@.take(i as int));
            assert(asked@ =~= demand@.take(i as int));
        }
        assert(out_qty@ =~= cand.out_qty@);
        assert(asked@ =~= demand@);
        assert(rhs@ =~= Seq::new(
            n as nat,
            |i: int| right_side(*single, *cand, demand@, i),
        ));
        FlowSystem { n, out_qty, demand: asked, row_ptr, col_idx, values, rhs }
    }

    fn row_product<B: Arithmetic>(&self, single: &B, x: &Vec<Scalar>, i: usize) -> (r: Scalar)
        requires
            self.wf(),
            x@.len() == self.n,
            i < self.n,
        ensures
            r == product(*single, *self, x@, i as int),
    {
        let from: usize = self.row_ptr[i];
        let to: usize = self.row_ptr[i + 1];
        proof {
            assert(self.row_ptr@[i as int] <= self.row_ptr@[i + 1]);
            assert(self.row_ptr@[i + 1] <= self.row_ptr@[self.n as int]);
        }
        let mut acc = single.ratio(0, 1);
        let mut k: usize = from;
        while k < to
            invariant
                from <= k <= to,
                to <= self.col_idx@.len(),
                self.wf(),
                x@.len() == self.n,
                acc == dot_to(*single, *self, x@, from as int, k as int),
            decreases to - k,
        {
            assert(self.col_idx@[k as int] < self.n);
            let c: u32 = self.col_idx[k];
            acc = single.plus(acc, single.times(self.values[k], x[c as usize]));
            k += 1;
        }
        acc
    }

    /// The product of the system and `x`.
    pub fn spmv<B: Arithmetic>(&self, single: &B, x: &Vec<Scalar>) -> (r: Vec<Scalar>)
        requires
            self.wf(),
            x@.len() == self.n,
        ensures
            r@ == Seq::new(self.n as nat, |i: int| product(*single, *self, x@, i)),
    {
        let mut r: Vec<Scalar> = Vec::new();
        let mut i: usize = 0;
        while i < self.n
            invariant
                i <= self.n,
                self.wf(),
                x@.len() == self.n,
                r@.len() == i,
                forall|k: int| 0 <= k < i ==> #[trigger] r@[k] == product(*single, *self, x@, k),
            decreases self.n - i,
        {
            r.push(self.row_product(single, x, i));
            i += 1;
        }
        assert(r@ =~= Seq::new(self.n as nat, |i: int| product(*single, *self, x@, i)));
        r
    }

    /// What is used of each material when the operations are `x`.
    pub fn consumed<B: Arithmetic>(&self, single: &B, x: &Vec<Scalar>) -> (r: Vec<Scalar>)
        requires
            self.wf(),
            x@.len() == self.n,
        ensures
            r@ == Seq::new(self.n as nat, |i: int| use_of(*single, *self, x@, i)),
    {
        let ax = self.spmv(single, x);
        let mut r: Vec<Scalar> = Vec::new();
        let mut i: usize = 0;
        while i < self.n
            invariant
                i <= self.n,
                self.wf(),
                x@.len() == self.n,
                ax@ == Seq::new(self.n as nat, |i: int| product(*single, *self, x@, i)),
                r@.len() == i,
                forall|k: int| 0 <= k < i ==> #[trigger] r@[k] == use_of(*single, *self, x@, k),
            decreases self.n - i,
        {
            r.push(single.times(single.minus(x[i], ax[i]), self.out_qty[i]));
            i += 1;
        }
        assert(r@ =~= Seq::new(self.n as nat, |i: int| use_of(*single, *self, x@, i)));
        r
    }

    /// The score of operations `x`; smaller is better. Operations that grow
    /// beyond measure are no solution and cost a lot.
    pub fn score<B: Arithmetic>(
        &self,
        single: &B,
        x: &Vec<Scalar>,
        weights: &Vec<Scalar>,
        ops_penalty: Scalar,
    ) -> (r: Scalar)
        requires
            self.wf(),
            x@.len() == self.n,
            weights@.len() == self.n,
        ensures
            ({
                let s = score_to(*single, *self, x@, weights@, ops_penalty, self.n as int);
                r == if diverges_to(*single, x@, self.n as int) {
                    single.plus_spec(s, single.ratio_spec(1_000_000_000, 1))
                } else {
                    s
                }
            }),
    {
        let used = self.consumed(single, x);
        let zero = single.ratio(0, 1);
        let much = single.ratio(100_000_000_000, 1);
        let mut s = single.ratio(0, 1);
        let mut diverges = false;
        let mut i: usize = 0;
        while i < self.n
            invariant
                i <= self.n,
                self.wf(),
                x@.len() == self.n,
                weights@.len() == self.n,
                zero == single.ratio_spec(0, 1),
                much == single.ratio_spec(100_000_000_000, 1),
                used@ == Seq::new(self.n as nat, |i: int| use_of(*single, *self, x@, i)),
                s == score_to(*single, *self, x@, weights@, ops_penalty, i as int),
                diverges == diverges_to(*single, x@, i as int),
            decreases self.n - i,
        {
            let made = single.times(x[i], self.out_qty[i]);
            let missing = single.most(
                single.minus(single.plus(self.demand[i], used[i]), made),
                zero,
            );
            s = single.plus(
                s,
                single.plus(
                    single.times(missing, weights[i]),
                    single.times(ops_penalty, x[i]),
                ),
            );
            if single.lt(much, x[i]) {
                diverges = true;
            }
            i += 1;
        }
        if diverges {
            single.plus(s, single.ratio(1_000_000_000, 1))
        } else {
            s
        }
    }

    /// The operations after some steps of relaxation, at least one.
    pub fn solve_cpu<B: Arithmetic>(&self, single: &B, iterations: u32, omega: Scalar) -> (r: Vec<
        Scalar,
    >)
        requires
            self.wf(),
        ensures
            r@ == relaxed_times(
                *single,
                *self,
                omega,
                if iterations < 1 {
                    1
                } else {
                    iterations as nat
                },
            ),
            r@.len() == self.n,
    {
        let steps: u32 = if iterations < 1 { 1 } else { iterations };
        let mut x = filled(self.n, single.ratio(0, 1));
        let mut k: u32 = 0;
        while k < steps
            invariant
                k <= steps,
                self.wf(),
                x@.len() == self.n,
                x@ == relaxed_times(*single, *self, omega, k as nat),
            decreases steps - k,
        {
            let ax = self.spmv(single, &x);
            let ghost before = x@;
            let mut next: Vec<Scalar> = Vec::new();
            let mut i: usize = 0;
            while i < self.n
                invariant
                    i <= self.n,
                    self.wf(),
                    x@ == before,
                    x@.len() == self.n,
                    ax@ == Seq::new(self.n as nat, |i: int| product(*single, *self, before, i)),
                    next@.len() == i,
                    forall|k: int|
                        0 <= k < i ==> #[trigger] next@[k] == relaxed(
                            *single,
                            *self,
                            omega,
                            before,
                        )[k],
                decreases self.n - i,
            {
                next.push(
                    single.plus(x[i], single.times(omega, single.minus(self.rhs[i], ax[i]))),
                );
                i += 1;
            }
            assert(next@ =~= relaxed(*single, *self, omega, before));
            x = next;
            k += 1;
        }
        x
    }
}

/// The device cannot be used.
#[derive(Debug)]
pub struct GpuUnavailable(pub String);

impl GpuUnavailable {
    /// What is shown for it.
    pub fn message(&self) -> (r: String)
        ensures
            r@ == "GPU 不可用: "@ + self.0@,
    {
        joined("GPU 不可用: ", self.0.as_str())
    }
}

} // verus!

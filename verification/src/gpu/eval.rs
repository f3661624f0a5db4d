//! What goes to the device and what comes back.
//!
//! Numbers go as 32-bit words, and words as bytes. Assignments go in batches of
//! limited size; an assignment that cannot be judged has an infinite score.
use vstd::prelude::*;

use crate::choices::Choices;
use crate::gpu::linear::FlowSystem;
use crate::gpu::subgraph::{CandidateTable, SubgraphData};
use crate::list::filled;
use crate::scalar::{Arithmetic, Scalar};
use crate::text::joined;

verus! {

/// How many assignments go to the device at once.
pub const BATCH: usize = 512;

/// The number that four bytes are, the lowest first.
pub open spec fn little(bytes: Seq<u8>, at: int) -> int {
    bytes[at] + 0x100 * bytes[at + 1] + 0x1_0000 * bytes[at + 2] + 0x100_0000 * bytes[at + 3]
}

/// The number that four bytes are, the highest first.
pub open spec fn big(bytes: Seq<u8>, at: int) -> int {
    0x100_0000 * bytes[at] + 0x1_0000 * bytes[at + 1] + 0x100 * bytes[at + 2] + bytes[at + 3]
}

/// The bytes are the words one after the other, in the byte order of the machine.
pub open spec fn encodes(bytes: Seq<u8>, words: Seq<u32>) -> bool {
    &&& bytes.len() == 4 * words.len()
    &&& {
        ||| forall|i: int|
            0 <= i < words.len() ==> #[trigger] words[i] == little(bytes, 4 * i)
        ||| forall|i: int| 0 <= i < words.len() ==> #[trigger] words[i] == big(bytes, 4 * i)
    }
}

/// The bytes of words, by `bytemuck::cast_slice`, which gives the memory of a
/// slice as bytes: four for each word, in the byte order of the machine.
#[verifier::external_body]
fn bytes_of(words: &Vec<u32>) -> (r: Vec<u8>)
    ensures
        encodes(r@, words@),
{
    bytemuck::cast_slice::<u32, u8>(words.as_slice()).to_vec()
}

/// The words of numbers of the device: their lower halves.
pub open spec fn words_of(v: Seq<Scalar>) -> Seq<u32> {
    v.map_values(|s: Scalar| (s.bits & 0xffff_ffff) as u32)
}

/// The words of numbers of the device.
pub fn scalar_words(v: &Vec<Scalar>) -> (r: Vec<u32>)
    ensures
        r@ == words_of(v@),
{
    let mut r: Vec<u32> = Vec::new();
    let mut i: usize = 0;
    while i < v.len()
        invariant
            i <= v@.len(),
            r@ == words_of(v@.take(i as int)),
        decreases v@.len() - i,
    {
        let bits: u64 = v[i].bits;
        r.push((bits & 0xffff_ffff) as u32);
        i += 1;
        assert(r@ =~= words_of(v@.take(i as int)));
    }
    assert(v@.take(i as int) =~= v@);
    r
}

/// Positions as words; none where one is too great.
fn position_words(v: &Vec<usize>) -> (r: Option<Vec<u32>>)
    ensures
        match r {
            Some(w) => {
                &&& w@.len() == v@.len()
                &&& forall|i: int| 0 <= i < v@.len() ==> #[trigger] w@[i] == v@[i]
            },
            None => exists|i: int| 0 <= i < v@.len() && #[trigger] v@[i] > u32::MAX,
        },
{
    let mut w: Vec<u32> = Vec::new();
    let mut i: usize = 0;
    while i < v.len()
        invariant
            i <= v@.len(),
            w@.len() == i,
            forall|k: int| 0 <= k < i ==> #[trigger] w@[k] == v@[k],
        decreases v@.len() - i,
    {
        let x: usize = v[i];
        if x > u32::MAX as usize {
            assert(v@[i as int] > u32::MAX);
            return None;
        }
        w.push(x as u32);
        i += 1;
    }
    Some(w)
}

/// What is asked for of each material of a part.
pub open spec fn demand_of<B: Arithmetic>(single: B, sg: SubgraphData, rate: Scalar) -> Seq<Scalar> {
    Seq::new(
        sg.materials@.len(),
        |i: int|
            if sg.materials@[i] == sg.target {
                rate
            } else {
                single.ratio_spec(0, 1)
            },
    )
}

/// What is asked for of each material of a part.
pub fn list_demand<B: Arithmetic>(single: &B, sg: &SubgraphData, rate: Scalar) -> (r: Vec<Scalar>)
    ensures
        r@ == demand_of(*single, *sg, rate),
{
    let mut r: Vec<Scalar> = Vec::new();
    let mut i: usize = 0;
    while i < sg.materials.len()
        invariant
            i <= sg.materials@.len(),
            r@.len() == i,
            forall|k: int| 0 <= k < i ==> #[trigger] r@[k] == demand_of(*single, *sg, rate)[k],
        decreases sg.materials@.len() - i,
    {
        r.push(
            if sg.materials[i] == sg.target {
                rate
            } else {
                single.ratio(0, 1)
            },
        );
        i += 1;
    }
    assert(r@ =~= demand_of(*single, *sg, rate));
    r
}

/// What the device is told of a part, once for all batches.
pub struct PartBuffers {
    pub cons_offsets: Vec<u8>,
    pub cons_recipes: Vec<u8>,
    pub cons_qty: Vec<u8>,
    pub demand: Vec<u8>,
    pub norm_factor: Vec<u8>,
}

impl PartBuffers {
    /// The buffers of a part and a rate of the target; none where there are too
    /// many uses for the device.
    pub fn new<B: Arithmetic>(single: &B, sg: &SubgraphData, rate: Scalar) -> (r: Option<Self>)
        requires
            sg.wf(),
        ensures
            r is None <==> sg.cons_recipes@.len() > u32::MAX,
            r matches Some(b) ==> {
                &&& encodes(
                    b.cons_offsets@,
                    sg.cons_offsets@.map_values(|x: usize| x as u32),
                )
                &&& encodes(b.cons_recipes@, sg.cons_recipes@)
                &&& encodes(b.cons_qty@, words_of(sg.cons_qty@))
                &&& encodes(b.demand@, words_of(demand_of(*single, *sg, rate)))
                &&& encodes(b.norm_factor@, words_of(sg.norm_factor@))
            },
    {
        match position_words(&sg.cons_offsets) {
            Some(offsets) => {
                proof {
                    let n = sg.materials@.len() as int;
                    assert(offsets@[n] == sg.cons_offsets@[n]);
                    assert(offsets@ =~= sg.cons_offsets@.map_values(|x: usize| x as u32));
                }
                let demand = list_demand(single, sg, rate);
                Some(
                    PartBuffers {
                        cons_offsets: bytes_of(&offsets),
                        cons_recipes: bytes_of(&sg.cons_recipes),
                        cons_qty: bytes_of(&scalar_words(&sg.cons_qty)),
                        demand: bytes_of(&scalar_words(&demand)),
                        norm_factor: bytes_of(&scalar_words(&sg.norm_factor)),
                    },
                )
            },
            None => {
                proof {
                    let n = sg.materials@.len() as int;
                    let i = choose|i: int|
                        0 <= i < sg.cons_offsets@.len() && #[trigger] sg.cons_offsets@[i]
                            > u32::MAX;
                    assert(sg.cons_offsets@[i] <= sg.cons_offsets@[n]);
                }
                None
            },
        }
    }
}

/// The steps that the device makes: at least one and at most 512.
pub fn clamp_iterations(n: u32) -> (r: u32)
    ensures
        r == if n < 1 {
            1
        } else if n > 512 {
            512u32
        } else {
            n
        },
{
    if n < 1 {
        1
    } else if n > 512 {
        512
    } else {
        n
    }
}

/// What a plan calls the evaluator on a device.
pub fn evaluator_name(adapter: &str) -> (r: String)
    ensures
        r@ == "wgpu("@ + adapter@ + ")"@,
{
    let start = joined("wgpu(", adapter);
    joined(start.as_str(), ")")
}

/// Tables of assignments that can be judged, each with the position of its
/// assignment.
pub open spec fn judged_to<B: Arithmetic>(
    single: B,
    sg: SubgraphData,
    choices: Seq<Choices>,
    k: int,
) -> Seq<(usize, crate::gpu::subgraph::Table)>
    decreases k,
{
    if k <= 0 {
        Seq::empty()
    } else {
        let rest = judged_to(single, sg, choices, k - 1);
        let entries = choices[k - 1].entries@;
        match crate::gpu::subgraph::table_to(single, sg, entries, entries.len() as int) {
            Some(t) => rest.push(((k - 1) as usize, t)),
            None => rest,
        }
    }
}

/// Tables, for contracts.
pub open spec fn tables_of(v: Seq<(usize, CandidateTable)>) -> Seq<
    (usize, crate::gpu::subgraph::Table),
> {
    v.map_values(
        |x: (usize, CandidateTable)|
            (
                x.0,
                crate::gpu::subgraph::Table { owner: x.1.owner@, out_qty: x.1.out_qty@ },
            ),
    )
}

/// Scores for the first `k` of a batch that starts at `from` are noted.
pub open spec fn noted_to(
    out: Seq<Scalar>,
    valid: Seq<(usize, CandidateTable)>,
    from: int,
    scores: Seq<Scalar>,
    k: int,
) -> Seq<Scalar>
    decreases k,
{
    if k <= 0 {
        out
    } else {
        noted_to(out, valid, from, scores, k - 1).update(
            valid[from + k - 1].0 as int,
            scores[k - 1],
        )
    }
}

/// A batch for the device: the tables of its assignments, one after the other.
pub struct BatchBuffers {
    pub count: usize,
    pub owner: Vec<u8>,
    pub out_qty: Vec<u8>,
}

/// The owners of tables `from` to `to`, one after the other.
pub open spec fn owners_to(valid: Seq<(usize, CandidateTable)>, from: int, to: int) -> Seq<u32>
    decreases to - from,
{
    if to <= from {
        Seq::empty()
    } else {
        owners_to(valid, from, to - 1) + valid[to - 1].1.owner@
    }
}

/// The quantities of tables `from` to `to`, one after the other.
pub open spec fn outputs_to(valid: Seq<(usize, CandidateTable)>, from: int, to: int) -> Seq<Scalar>
    decreases to - from,
{
    if to <= from {
        Seq::empty()
    } else {
        outputs_to(valid, from, to - 1) + valid[to - 1].1.out_qty@
    }
}

/// Assignments that are judged batch by batch.
pub struct Judging {
    /// The score of each assignment; infinite until it is known.
    pub scores: Vec<Scalar>,
    /// The tables of the assignments that can be judged.
    pub valid: Vec<(usize, CandidateTable)>,
    /// How many of them were judged.
    pub done: usize,
}

impl Judging {
    pub open spec fn wf(self) -> bool {
        &&& self.done <= self.valid@.len()
        &&& forall|i: int|
            0 <= i < self.valid@.len() ==> (#[trigger] self.valid@[i]).0 < self.scores@.len()
    }

    /// Where the next batch ends.
    pub open spec fn next_end(self) -> int {
        if self.valid@.len() - self.done > BATCH {
            self.done + BATCH
        } else {
            self.valid@.len() as int
        }
    }

    /// Nothing is judged yet.
    pub fn start<A: Arithmetic, B: Arithmetic>(
        ar: &A,
        single: &B,
        sg: &SubgraphData,
        choices: &Vec<Choices>,
    ) -> (r: Self)
        requires
            sg.indexed(),
        ensures
            r.wf(),
            r.done == 0,
            r.scores@ == Seq::new(choices@.len(), |i: int| ar.infinity_spec()),
            tables_of(r.valid@) == judged_to(*single, *sg, choices@, choices@.len() as int),
    {
        let mut valid: Vec<(usize, CandidateTable)> = Vec::new();
        let mut k: usize = 0;
        assert(tables_of(valid@) =~= Seq::empty());
        while k < choices.len()
            invariant
                k <= choices@.len(),
                sg.indexed(),
                tables_of(valid@) == judged_to(*single, *sg, choices@, k as int),
                forall|i: int| 0 <= i < valid@.len() ==> (#[trigger] valid@[i]).0 < k,
            decreases choices@.len() - k,
        {
            if let Some(t) = CandidateTable::from_choices(single, sg, &choices[k]) {
                let ghost before = tables_of(valid@);
                let ghost shown = (
                    k,
                    crate::gpu::subgraph::Table { owner: t.owner@, out_qty: t.out_qty@ },
                );
                valid.push((k, t));
                assert(tables_of(valid@) =~= before.push(shown));
            }
            k += 1;
        }
        Judging { scores: filled(choices.len(), ar.infinity()), valid, done: 0 }
    }

    /// The next batch for the device; none when all are judged.
    pub fn next_batch(&self) -> (r: Option<BatchBuffers>)
        requires
            self.wf(),
        ensures
            r is None <==> self.done == self.valid@.len(),
            r matches Some(b) ==> {
                &&& b.count == self.next_end() - self.done
                &&& encodes(b.owner@, owners_to(self.valid@, self.done as int, self.next_end()))
                &&& encodes(
                    b.out_qty@,
                    words_of(outputs_to(self.valid@, self.done as int, self.next_end())),
                )
            },
    {
        if self.done == self.valid.len() {
            return None;
        }
        let left: usize = self.valid.len() - self.done;
        let end: usize = if left > BATCH { self.done + BATCH } else { self.valid.len() };
        let mut owner: Vec<u32> = Vec::new();
        let mut out_qty: Vec<Scalar> = Vec::new();
        let mut k: usize = self.done;
        while k < end
            invariant
                self.done <= k <= end,
                end <= self.valid@.len(),
                owner@ == owners_to(self.valid@, self.done as int, k as int),
                out_qty@ == outputs_to(self.valid@, self.done as int, k as int),
            decreases end - k,
        {
            let t = &self.valid[k].1;
            put_words(&mut owner, &t.owner);
            put_scalars(&mut out_qty, &t.out_qty);
            k += 1;
        }
        Some(
            BatchBuffers {
                count: end - self.done,
                owner: bytes_of(&owner),
                out_qty: bytes_of(&scalar_words(&out_qty)),
            },
        )
    }

    /// Notes the scores of the batch that was handed out last. Scores that are
    /// missing stay infinite.
    pub fn note(&mut self, scores: &Vec<Scalar>)
        requires
            old(self).wf(),
        ensures
            final(self).wf(),
            final(self).valid == old(self).valid,
            final(self).done == old(self).next_end(),
            ({
                let n = old(self).next_end() - old(self).done;
                final(self).scores@ == noted_to(
                    old(self).scores@,
                    old(self).valid@,
                    old(self).done as int,
                    scores@,
                    if scores@.len() < n {
                        scores@.len() as int
                    } else {
                        n
                    },
                )
            }),
    {
        let total: usize = self.valid.len();
        let left: usize = total - self.done;
        let n: usize = if left > BATCH { BATCH } else { left };
        let count: usize = if scores.len() < n { scores.len() } else { n };
        let ghost start = self.scores@;
        let from: usize = self.done;
        let mut k: usize = 0;
        while k < count
            invariant
                k <= count <= n,
                count <= scores@.len(),
                from + n <= total,
                total == self.valid@.len(),
                self.done == from,
                self.wf(),
                self.valid == old(self).valid,
                self.scores@.len() == start.len(),
                self.scores@ == noted_to(start, self.valid@, from as int, scores@, k as int),
            decreases count - k,
        {
            let at: usize = self.valid[from + k].0;
            assert(self.valid@[from + k].0 < self.scores@.len());
            self.scores[at] = scores[k];
            k += 1;
        }
        self.done = from + n;
    }
}

fn put_words(v: &mut Vec<u32>, more: &Vec<u32>)
    ensures
        final(v)@ == old(v)@ + more@,
{
    let ghost start = v@;
    let mut i: usize = 0;
    assert(v@ =~= start + more@.take(0));
    while i < more.len()
        invariant
            i <= more@.len(),
            v@ == start + more@.take(i as int),
        decreases more@.len() - i,
    {
        v.push(more[i]);
        i += 1;
        assert(v@ =~= start + more@.take(i as int));
    }
    assert(more@.take(i as int) =~= more@);
}

fn put_scalars(v: &mut Vec<Scalar>, more: &Vec<Scalar>)
    ensures
        final(v)@ == old(v)@ + more@,
{
    let ghost start = v@;
    let mut i: usize = 0;
    assert(v@ =~= start + more@.take(0));
    while i < more.len()
        invariant
            i <= more@.len(),
            v@ == start + more@.take(i as int),
        decreases more@.len() - i,
    {
        v.push(more[i]);
        i += 1;
        assert(v@ =~= start + more@.take(i as int));
    }
    assert(more@.take(i as int) =~= more@);
}

/// An assignment that is not in a batch keeps its score; so one that cannot be
/// judged keeps an infinite one.
pub proof fn others_keep_their_score(
    out: Seq<Scalar>,
    valid: Seq<(usize, CandidateTable)>,
    from: int,
    scores: Seq<Scalar>,
    k: int,
    i: int,
)
    requires
        0 <= from,
        from + k <= valid.len(),
        forall|j: int| 0 <= j < valid.len() ==> (#[trigger] valid[j]).0 < out.len(),
        forall|j: int| from <= j < from + k ==> (#[trigger] valid[j]).0 != i,
        0 <= i < out.len(),
    ensures
        noted_to(out, valid, from, scores, k)[i] == out[i],
        noted_to(out, valid, from, scores, k).len() == out.len(),
    decreases k,
{
    if k > 0 {
        others_keep_their_score(out, valid, from, scores, k - 1, i);
        assert(valid[from + k - 1].0 != i);
    }
}

/// Systems for the device, each filled up to the size of the greatest.
pub struct SystemBuffers {
    pub max_n: usize,
    pub max_nnz: usize,
    pub row_ptr: Vec<u8>,
    pub col_idx: Vec<u8>,
    pub values: Vec<u8>,
    pub rhs: Vec<u8>,
}

/// The greatest number of rows of the first `k` systems.
pub open spec fn rows_to(systems: Seq<FlowSystem>, k: int) -> usize
    decreases k,
{
    if k <= 0 {
        0
    } else if systems[k - 1].n > rows_to(systems, k - 1) {
        systems[k - 1].n
    } else {
        rows_to(systems, k - 1)
    }
}

/// The greatest number of entries of the first `k` systems, at least one.
pub open spec fn entries_to(systems: Seq<FlowSystem>, k: int) -> nat
    decreases k,
{
    if k <= 0 {
        1
    } else if systems[k - 1].col_idx@.len() > entries_to(systems, k - 1) {
        systems[k - 1].col_idx@.len()
    } else {
        entries_to(systems, k - 1)
    }
}

/// A list that is filled up to a length.
pub open spec fn filled_up<T>(s: Seq<T>, n: nat, x: T) -> Seq<T> {
    s + Seq::new(
        if n > s.len() {
            (n - s.len()) as nat
        } else {
            0
        },
        |i: int| x,
    )
}

/// The row starts of the first `k` systems; rows that are not there are empty.
pub open spec fn starts_to(systems: Seq<FlowSystem>, max_n: nat, k: int) -> Seq<u32>
    decreases k,
{
    if k <= 0 {
        Seq::empty()
    } else {
        let s = systems[k - 1];
        starts_to(systems, max_n, k - 1) + filled_up(
            s.row_ptr@.map_values(|x: usize| x as u32),
            max_n + 1,
            s.col_idx@.len() as u32,
        )
    }
}

/// The columns of the first `k` systems.
pub open spec fn columns_to(systems: Seq<FlowSystem>, max_nnz: nat, k: int) -> Seq<u32>
    decreases k,
{
    if k <= 0 {
        Seq::empty()
    } else {
        columns_to(systems, max_nnz, k - 1) + filled_up(systems[k - 1].col_idx@, max_nnz, 0)
    }
}

/// The values of the first `k` systems.
pub open spec fn values_to(systems: Seq<FlowSystem>, max_nnz: nat, k: int) -> Seq<u32>
    decreases k,
{
    if k <= 0 {
        Seq::empty()
    } else {
        values_to(systems, max_nnz, k - 1) + filled_up(
            words_of(systems[k - 1].values@),
            max_nnz,
            0,
        )
    }
}

/// The right sides of the first `k` systems.
pub open spec fn sides_to(systems: Seq<FlowSystem>, max_n: nat, k: int) -> Seq<u32>
    decreases k,
{
    if k <= 0 {
        Seq::empty()
    } else {
        sides_to(systems, max_n, k - 1) + filled_up(words_of(systems[k - 1].rhs@), max_n, 0)
    }
}

fn fill_up(v: &mut Vec<u32>, from: usize, to: usize, x: u32)
    ensures
        final(v)@ == old(v)@ + Seq::new(
            if to > from {
                (to - from) as nat
            } else {
                0
            },
            |i: int| x,
        ),
{
    let ghost start = v@;
    let mut k: usize = from;
    assert(v@ =~= start + Seq::new(0, |i: int| x));
    while k < to
        invariant
            from <= k,
            k <= to || k == from,
            v@ == start + Seq::new((k - from) as nat, |i: int| x),
        decreases to - k,
    {
        v.push(x);
        k += 1;
        assert(v@ =~= start + Seq::new((k - from) as nat, |i: int| x));
    }
}

impl SystemBuffers {
    /// The buffers of systems; none where one has too many entries for the device.
    pub fn new(systems: &Vec<FlowSystem>) -> (r: Option<Self>)
        requires
            forall|i: int| 0 <= i < systems@.len() ==> (#[trigger] systems@[i]).wf(),
        ensures
            r is None <==> exists|i: int|
                0 <= i < systems@.len() && (#[trigger] systems@[i]).col_idx@.len() > u32::MAX,
            r matches Some(b) ==> {
                let n = systems@.len() as int;
                &&& b.max_n == rows_to(systems@, n)
                &&& b.max_nnz == entries_to(systems@, n)
                &&& encodes(b.row_ptr@, starts_to(systems@, b.max_n as nat, n))
                &&& encodes(b.col_idx@, columns_to(systems@, b.max_nnz as nat, n))
                &&& encodes(b.values@, values_to(systems@, b.max_nnz as nat, n))
                &&& encodes(b.rhs@, sides_to(systems@, b.max_n as nat, n))
            },
    {
        let mut max_n: usize = 0;
        let mut max_nnz: usize = 1;
        let mut k: usize = 0;
        while k < systems.len()
            invariant
                k <= systems@.len(),
                max_n == rows_to(systems@, k as int),
                max_nnz == entries_to(systems@, k as int),
                forall|i: int| 0 <= i < k ==> (#[trigger] systems@[i]).n <= max_n,
                forall|i: int| 0 <= i < k ==> (#[trigger] systems@[i]).col_idx@.len() <= u32::MAX,
            decreases systems@.len() - k,
        {
            let s = &systems[k];
            if s.col_idx.len() > u32::MAX as usize {
                assert(systems@[k as int].col_idx@.len() > u32::MAX);
                return None;
            }
            if s.n > max_n {
                max_n = s.n;
            }
            if s.col_idx.len() > max_nnz {
                max_nnz = s.col_idx.len();
            }
            k += 1;
        }
        let mut row_ptr: Vec<u32> = Vec::new();
        let mut col_idx: Vec<u32> = Vec::new();
        let mut values: Vec<u32> = Vec::new();
        let mut rhs: Vec<u32> = Vec::new();
        let mut k: usize = 0;
        while k < systems.len()
            invariant
                k <= systems@.len(),
                forall|i: int| 0 <= i < systems@.len() ==> (#[trigger] systems@[i]).wf(),
                forall|i: int| 0 <= i < systems@.len() ==> (#[trigger] systems@[i]).n <= max_n,
                forall|i: int|
                    0 <= i < systems@.len() ==> (#[trigger] systems@[i]).col_idx@.len() <= u32::MAX,
                row_ptr@ == starts_to(systems@, max_n as nat, k as int),
                col_idx@ == columns_to(systems@, max_nnz as nat, k as int),
                values@ == values_to(systems@, max_nnz as nat, k as int),
                rhs@ == sides_to(systems@, max_n as nat, k as int),
            decreases systems@.len() - k,
        {
            let s = &systems[k];
            assert(systems@[k as int].wf());
            let nnz: usize = s.col_idx.len();
            let ghost starts = s.row_ptr@.map_values(|x: usize| x as u32);
            match position_words(&s.row_ptr) {
                Some(words) => {
                    let ghost had = row_ptr@;
                    assert(words@ =~= starts);
                    put_words(&mut row_ptr, &words);
                    fill_up(&mut row_ptr, s.n, max_n, nnz as u32);
                    assert(row_ptr@ =~= had + filled_up(starts, max_n as nat + 1, nnz as u32));
                },
                None => {
                    proof {
                        let i = choose|i: int|
                            0 <= i < s.row_ptr@.len() && #[trigger] s.row_ptr@[i] > u32::MAX;
                        assert(s.row_ptr@[i] <= s.row_ptr@[s.n as int]);
                    }
                },
            }
            let ghost had = col_idx@;
            put_words(&mut col_idx, &s.col_idx);
            fill_up(&mut col_idx, nnz, max_nnz, 0);
            assert(col_idx@ =~= had + filled_up(s.col_idx@, max_nnz as nat, 0));
            let ghost had = values@;
            put_words(&mut values, &scalar_words(&s.values));
            fill_up(&mut values, nnz, max_nnz, 0);
            assert(values@ =~= had + filled_up(words_of(s.values@), max_nnz as nat, 0));
            let ghost had = rhs@;
            put_words(&mut rhs, &scalar_words(&s.rhs));
            fill_up(&mut rhs, s.n, max_n, 0);
            assert(rhs@ =~= had + filled_up(words_of(s.rhs@), max_n as nat, 0));
            k += 1;
        }
        Some(
            SystemBuffers {
                max_n,
                max_nnz,
                row_ptr: bytes_of(&row_ptr),
                col_idx: bytes_of(&col_idx),
                values: bytes_of(&values),
                rhs: bytes_of(&rhs),
            },
        )
    }

    /// The solutions of the systems, out of what came back for all of them.
    pub fn solutions(&self, systems: &Vec<FlowSystem>, flat: &Vec<Scalar>) -> (r: Vec<Vec<Scalar>>)
        requires
            self.max_n == rows_to(systems@, systems@.len() as int),
            flat@.len() == systems@.len() * self.max_n,
        ensures
            r@.len() == systems@.len(),
            forall|i: int|
                0 <= i < r@.len() ==> (#[trigger] r@[i])@ == flat@.subrange(
                    i * self.max_n,
                    i * self.max_n + systems@[i].n,
                ),
    {
        let mut r: Vec<Vec<Scalar>> = Vec::new();
        let mut base: usize = 0;
        let mut k: usize = 0;
        while k < systems.len()
            invariant
                k <= systems@.len(),
                base == k * self.max_n,
                self.max_n == rows_to(systems@, systems@.len() as int),
                flat@.len() == systems@.len() * self.max_n,
                r@.len() == k,
                forall|i: int|
                    0 <= i < k ==> (#[trigger] r@[i])@ == flat@.subrange(
                        i * self.max_n,
                        i * self.max_n + systems@[i].n,
                    ),
            decreases systems@.len() - k,
        {
            let total: usize = flat.len();
            let n: usize = systems[k].n;
            proof {
                rows_cover(systems@, k as int, systems@.len() as int);
                vstd::arithmetic::mul::lemma_mul_inequality(
                    k as int + 1,
                    systems@.len() as int,
                    self.max_n as int,
                );
                vstd::arithmetic::mul::lemma_mul_is_distributive_add_other_way(
                    self.max_n as int,
                    k as int,
                    1,
                );
            }
            assert(base + self.max_n <= total);
            let mut list: Vec<Scalar> = Vec::new();
            let mut i: usize = 0;
            while i < n
                invariant
                    i <= n,
                    n <= self.max_n,
                    total == flat@.len(),
                    base + self.max_n <= total,
                    list@ == flat@.subrange(base as int, base + i),
                decreases n - i,
            {
                list.push(flat[base + i]);
                i += 1;
                assert(list@ =~= flat@.subrange(base as int, base + i));
            }
            r.push(list);
            base = base + self.max_n;
            k += 1;
        }
        r
    }
}

proof fn rows_cover(systems: Seq<FlowSystem>, i: int, k: int)
    requires
        0 <= i < k <= systems.len(),
    ensures
        systems[i].n <= rows_to(systems, k),
    decreases k,
{
    if i < k - 1 {
        rows_cover(systems, i, k - 1);
    }
}

} // verus!

//! Where the systems of a batch stand in its buffers.
use vstd::prelude::*;

use crate::gpu::eval::{
    columns_to, entries_to, filled_up, rows_to, sides_to, starts_to, values_to, words_of,
};
use crate::gpu::linear::FlowSystem;

verus! {

/// There is room for the longest system, and no more.
pub proof fn room_for_the_longest(systems: Seq<FlowSystem>, k: int, j: int)
    requires
        0 <= j < k <= systems.len(),
    ensures
        systems[j].n <= rows_to(systems, k),
        exists|i: int| 0 <= i < k && (#[trigger] systems[i]).n == rows_to(systems, k),
        systems[j].col_idx@.len() <= entries_to(systems, k),
        entries_to(systems, k) == 1 || exists|i: int|
            0 <= i < k && (#[trigger] systems[i]).col_idx@.len() == entries_to(systems, k),
    decreases k,
{
    if k == 1 {
        reveal_with_fuel(rows_to, 2);
        reveal_with_fuel(entries_to, 2);
        assert(systems[0].n == rows_to(systems, k));
        if systems[0].col_idx@.len() > 1 {
            assert(systems[0].col_idx@.len() == entries_to(systems, k));
        }
    } else {
        room_for_the_longest(systems, k - 1, if j < k - 1 { j } else { 0 });
        let r = rows_to(systems, k - 1);
        if systems[k - 1].n > r {
            assert(systems[k - 1].n == rows_to(systems, k));
        }
        if systems[k - 1].col_idx@.len() > entries_to(systems, k - 1) {
            assert(systems[k - 1].col_idx@.len() == entries_to(systems, k));
        }
    }
}

proof fn place_in_block<T>(before: Seq<T>, s: Seq<T>, n: nat, x: T, i: int)
    requires
        0 <= i < n,
        s.len() <= n,
    ensures
        (before + filled_up(s, n, x)).len() == before.len() + n,
        (before + filled_up(s, n, x))[before.len() + i] == if i < s.len() {
            s[i]
        } else {
            x
        },
{
}

proof fn starts_grow(systems: Seq<FlowSystem>, max: nat, k: int)
    requires
        0 <= k <= systems.len(),
        forall|j: int| 0 <= j < systems.len() ==> ((#[trigger] systems[j]).row_ptr@.map_values(|x: usize| x as u32)).len() <= max + 1,
    ensures
        starts_to(systems, max, k).len() == k * (max + 1),
    decreases k,
{
    if k > 0 {
        starts_grow(systems, max, k - 1);
        let w = (max + 1) as int;
        assert((systems[k - 1].row_ptr@.map_values(|x: usize| x as u32)).len() <= max + 1);
        assert((k - 1) * w + w == k * w) by (nonlinear_arith);
    } else {
        assert(0 * (max + 1) == 0);
    }
}

/// The starts of the rows of a system stand in its block, filled up with the end of the
/// last.
pub proof fn starts_stand(systems: Seq<FlowSystem>, max: nat, k: int, j: int, i: int)
    requires
        0 <= j < k <= systems.len(),
        forall|j: int| 0 <= j < systems.len() ==> ((#[trigger] systems[j]).row_ptr@.map_values(|x: usize| x as u32)).len() <= max + 1,
        0 <= i < max + 1,
    ensures
        0 <= j * (max + 1) + i < starts_to(systems, max, k).len(),
        starts_to(systems, max, k)[j * (max + 1) + i] == if i < (systems[j].row_ptr@.map_values(|x: usize| x as u32)).len() {
            systems[j].row_ptr@[i] as u32
        } else {
            systems[j].col_idx@.len() as u32
        },
    decreases k,
{
    let w = (max + 1) as int;
    starts_grow(systems, max, k);
    starts_grow(systems, max, k - 1);
    let before = starts_to(systems, max, k - 1);
    let s = systems[k - 1];
    assert((systems[k - 1].row_ptr@.map_values(|x: usize| x as u32)).len() <= max + 1);
    if j < k - 1 {
        starts_stand(systems, max, k - 1, j, i);
    } else {
        place_in_block(before, s.row_ptr@.map_values(|x: usize| x as u32), max + 1, s.col_idx@.len() as u32, i);
    }
}

proof fn columns_grow(systems: Seq<FlowSystem>, max: nat, k: int)
    requires
        0 <= k <= systems.len(),
        forall|j: int| 0 <= j < systems.len() ==> ((#[trigger] systems[j]).col_idx@).len() <= max,
    ensures
        columns_to(systems, max, k).len() == k * (max),
    decreases k,
{
    if k > 0 {
        columns_grow(systems, max, k - 1);
        let w = (max) as int;
        assert((systems[k - 1].col_idx@).len() <= max);
        assert((k - 1) * w + w == k * w) by (nonlinear_arith);
    } else {
        assert(0 * (max) == 0);
    }
}

/// The columns of a system stand in its block, filled up with zeros.
pub proof fn columns_stand(systems: Seq<FlowSystem>, max: nat, k: int, j: int, i: int)
    requires
        0 <= j < k <= systems.len(),
        forall|j: int| 0 <= j < systems.len() ==> ((#[trigger] systems[j]).col_idx@).len() <= max,
        0 <= i < max,
    ensures
        0 <= j * (max) + i < columns_to(systems, max, k).len(),
        columns_to(systems, max, k)[j * (max) + i] == if i < (systems[j].col_idx@).len() {
            systems[j].col_idx@[i]
        } else {
            0u32
        },
    decreases k,
{
    let w = (max) as int;
    columns_grow(systems, max, k);
    columns_grow(systems, max, k - 1);
    let before = columns_to(systems, max, k - 1);
    let s = systems[k - 1];
    assert((systems[k - 1].col_idx@).len() <= max);
    if j < k - 1 {
        columns_stand(systems, max, k - 1, j, i);
    } else {
        place_in_block(before, s.col_idx@, max, 0u32, i);
    }
}

proof fn values_grow(systems: Seq<FlowSystem>, max: nat, k: int)
    requires
        0 <= k <= systems.len(),
        forall|j: int| 0 <= j < systems.len() ==> (words_of((#[trigger] systems[j]).values@)).len() <= max,
    ensures
        values_to(systems, max, k).len() == k * (max),
    decreases k,
{
    if k > 0 {
        values_grow(systems, max, k - 1);
        let w = (max) as int;
        assert((words_of(systems[k - 1].values@)).len() <= max);
        assert((k - 1) * w + w == k * w) by (nonlinear_arith);
    } else {
        assert(0 * (max) == 0);
    }
}

/// The values of a system stand in its block, as words, filled up with zeros.
pub proof fn values_stand(systems: Seq<FlowSystem>, max: nat, k: int, j: int, i: int)
    requires
        0 <= j < k <= systems.len(),
        forall|j: int| 0 <= j < systems.len() ==> (words_of((#[trigger] systems[j]).values@)).len() <= max,
        0 <= i < max,
    ensures
        0 <= j * (max) + i < values_to(systems, max, k).len(),
        values_to(systems, max, k)[j * (max) + i] == if i < (words_of(systems[j].values@)).len() {
            (systems[j].values@[i].bits & 0xffff_ffff) as u32
        } else {
            0u32
        },
    decreases k,
{
    let w = (max) as int;
    values_grow(systems, max, k);
    values_grow(systems, max, k - 1);
    let before = values_to(systems, max, k - 1);
    let s = systems[k - 1];
    assert((words_of(systems[k - 1].values@)).len() <= max);
    if j < k - 1 {
        values_stand(systems, max, k - 1, j, i);
    } else {
        place_in_block(before, words_of(s.values@), max, 0u32, i);
    }
}

proof fn sides_grow(systems: Seq<FlowSystem>, max: nat, k: int)
    requires
        0 <= k <= systems.len(),
        forall|j: int| 0 <= j < systems.len() ==> (words_of((#[trigger] systems[j]).rhs@)).len() <= max,
    ensures
        sides_to(systems, max, k).len() == k * (max),
    decreases k,
{
    if k > 0 {
        sides_grow(systems, max, k - 1);
        let w = (max) as int;
        assert((words_of(systems[k - 1].rhs@)).len() <= max);
        assert((k - 1) * w + w == k * w) by (nonlinear_arith);
    } else {
        assert(0 * (max) == 0);
    }
}

/// The right sides of a system stand in its block, as words, filled up with zeros.
pub proof fn sides_stand(systems: Seq<FlowSystem>, max: nat, k: int, j: int, i: int)
    requires
        0 <= j < k <= systems.len(),
        forall|j: int| 0 <= j < systems.len() ==> (words_of((#[trigger] systems[j]).rhs@)).len() <= max,
        0 <= i < max,
    ensures
        0 <= j * (max) + i < sides_to(systems, max, k).len(),
        sides_to(systems, max, k)[j * (max) + i] == if i < (words_of(systems[j].rhs@)).len() {
            (systems[j].rhs@[i].bits & 0xffff_ffff) as u32
        } else {
            0u32
        },
    decreases k,
{
    let w = (max) as int;
    sides_grow(systems, max, k);
    sides_grow(systems, max, k - 1);
    let before = sides_to(systems, max, k - 1);
    let s = systems[k - 1];
    assert((words_of(systems[k - 1].rhs@)).len() <= max);
    if j < k - 1 {
        sides_stand(systems, max, k - 1, j, i);
    } else {
        place_in_block(before, words_of(s.rhs@), max, 0u32, i);
    }
}

} // verus!

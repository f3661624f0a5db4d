//! How far assignments are told apart by the numbers that they are known by.
use vstd::prelude::*;

use crate::model::{MaterialId, RecipeId};
use crate::planner::beam::{hash_of, hash_to};

verus! {

/// Multiplying by the factor of the numbers loses nothing: 14886173955864302971 undoes
/// it.
proof fn factor_is_undone(a: u64, b: u64)
    requires
        a.wrapping_mul(1099511628211) == b.wrapping_mul(1099511628211),
    ensures
        a == b,
{
    let x = a as int;
    let y = b as int;
    let m = 0x1_0000_0000_0000_0000int;
    let p = 1099511628211int;
    let q = 14886173955864302971int;
    assert((x * p) % m == (y * p) % m);
    back(x);
    back(y);
    assert(((x * p) % m * q) % m == ((y * p) % m * q) % m);
}

proof fn back(x: int)
    requires
        0 <= x < 0x1_0000_0000_0000_0000,
    ensures
        ((x * 1099511628211) % 0x1_0000_0000_0000_0000 * 14886173955864302971)
            % 0x1_0000_0000_0000_0000 == x,
{
    let m = 0x1_0000_0000_0000_0000int;
    let y = x * 1099511628211;
    let q = 14886173955864302971int;
    vstd::arithmetic::div_mod::lemma_mul_mod_noop_left(y, q, m);
    assert((y % m * q) % m == (y * q) % m);
    assert(y * q == m * (887285111055 * x) + x) by {
        assert(y * q == x * (1099511628211 * 14886173955864302971)) by (nonlinear_arith)
            requires
                y == x * 1099511628211,
                q == 14886173955864302971,
        ;
        assert(1099511628211 * 14886173955864302971 == m * 887285111055 + 1);
        assert(x * (m * 887285111055 + 1) == m * (887285111055 * x) + x) by (nonlinear_arith);
    }
    vstd::arithmetic::div_mod::lemma_mod_multiples_vanish(887285111055 * x, x, m);
    vstd::arithmetic::div_mod::lemma_small_mod(x as nat, m as nat);
}

proof fn mixing_loses_nothing(a: u64, b: u64, x: u64)
    requires
        a ^ x == b ^ x,
    ensures
        a == b,
{
    assert(a == b) by (bit_vector)
        requires
            a ^ x == b ^ x,
    ;
}

proof fn mixing_tells_apart(a: u64, x: u64, y: u64)
    requires
        a ^ x == a ^ y,
    ensures
        x == y,
{
    assert(x == y) by (bit_vector)
        requires
            a ^ x == a ^ y,
    ;
}

/// Assignments that differ in the recipe of one entry, and in nothing else, are known
/// by different numbers. So no change that a search tries is taken for the plan that
/// it changes.
pub proof fn changes_are_told_apart(
    a: Seq<(MaterialId, RecipeId)>,
    b: Seq<(MaterialId, RecipeId)>,
    p: int,
)
    requires
        a.len() == b.len(),
        0 <= p < a.len(),
        a[p].0 == b[p].0,
        a[p].1 != b[p].1,
        forall|i: int| 0 <= i < a.len() && i != p ==> #[trigger] a[i] == b[i],
    ensures
        hash_of(a) != hash_of(b),
{
    differ_from(a, b, p, a.len() as int);
}

proof fn same_before(a: Seq<(MaterialId, RecipeId)>, b: Seq<(MaterialId, RecipeId)>, n: int)
    requires
        0 <= n <= a.len() == b.len(),
        forall|i: int| 0 <= i < n ==> #[trigger] a[i] == b[i],
    ensures
        hash_to(a, n) == hash_to(b, n),
    decreases n,
{
    if n > 0 {
        same_before(a, b, n - 1);
        assert(a[n - 1] == b[n - 1]);
    }
}

proof fn differ_from(a: Seq<(MaterialId, RecipeId)>, b: Seq<(MaterialId, RecipeId)>, p: int, n: int)
    requires
        0 <= p < n <= a.len() == b.len(),
        a[p].0 == b[p].0,
        a[p].1 != b[p].1,
        forall|i: int| 0 <= i < a.len() && i != p ==> #[trigger] a[i] == b[i],
    ensures
        hash_to(a, n) != hash_to(b, n),
    decreases n,
{
    let (m, r) = a[n - 1];
    let (k, s) = b[n - 1];
    let f: u64 = 1099511628211;
    let ha = (hash_to(a, n - 1) ^ (m as u64)).wrapping_mul(f);
    let hb = (hash_to(b, n - 1) ^ (k as u64)).wrapping_mul(f);
    if hash_to(a, n) == hash_to(b, n) {
        factor_is_undone(ha ^ (r as u64), hb ^ (s as u64));
        if p == n - 1 {
            same_before(a, b, n - 1);
            mixing_tells_apart(ha, r as u64, s as u64);
        } else {
            differ_from(a, b, p, n - 1);
            mixing_loses_nothing(ha, hb, r as u64);
            factor_is_undone(hash_to(a, n - 1) ^ (m as u64), hash_to(b, n - 1) ^ (k as u64));
            mixing_loses_nothing(hash_to(a, n - 1), hash_to(b, n - 1), m as u64);
        }
    }
}

} // verus!

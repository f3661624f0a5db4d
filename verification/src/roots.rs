//! Roots, logarithms and ranks of fixed-point numbers.
use vstd::prelude::*;

use crate::fixed::{
    digits, halved, halvings, is_root, logarithm, parts, root, tens, Fixed, UNIT,
};
use crate::scalar::{Arithmetic, Scalar};
use crate::words::number;

verus! {

/// A root, times itself, comes to the number, up to the rounding of a part.
pub proof fn roots_square(a: Scalar, r: int)
    requires
        0 < parts(a),
        !crate::fixed::boundless(a),
        is_root(parts(a) * UNIT, r),
        r <= u64::MAX - crate::fixed::ZERO,
    ensures
        parts(Fixed.sqrt_spec(a)) == r,
        r * r <= parts(a) * UNIT,
        parts(a) * UNIT < (r + 1) * (r + 1),
{
    let n = parts(a) * UNIT;
    let s = root(n);
    assert(is_root(n, s));
    assert(s == r) by (nonlinear_arith)
        requires
            0 <= r,
            r * r <= n,
            n < (r + 1) * (r + 1),
            0 <= s,
            s * s <= n,
            n < (s + 1) * (s + 1),
    ;
}

/// The logarithm of one is nothing, and twice a number has a logarithm that is greater
/// by that of two.
pub proof fn logarithms_add(v: int)
    requires
        v >= UNIT,
    ensures
        logarithm(UNIT as int) == 0,
        logarithm(2 * UNIT) == 693147,
        logarithm(2 * v) == logarithm(v) + 693147,
{
    assert((2 * v) / 2 == v);
    assert(halvings(2 * v) == halvings(v) + 1);
    assert(halved(2 * v) == halved(v));
    assert((UNIT * 2) / 2 == UNIT);
    assert(halvings(UNIT as int) == 0 && halved(UNIT as int) == UNIT);
    assert(halvings(2 * UNIT) == 1 && halved(2 * UNIT) == UNIT);
    let k = halvings(v) as int;
    assert((k + 1) * 693147 == k * 693147 + 693147) by (nonlinear_arith);
}

/// Greater numbers have no smaller rank.
pub proof fn ranks_keep_order(a: Scalar, b: Scalar)
    requires
        Fixed.le_spec(a, b),
    ensures
        Fixed.rank_spec(a) <= Fixed.rank_spec(b),
{
    let (x, y) = (parts(a), parts(b));
    if x > 0 {
        assert(x / 0x8000_0000 <= y / 0x8000_0000);
        assert(0 <= x / 0x8000_0000 <= u32::MAX && 0 <= y / 0x8000_0000 <= u32::MAX);
    }
}

/// A number of digits is read back, as far as it has digits.
pub proof fn digits_read_back(n: nat, k: nat)
    ensures
        digits(n, k).len() == k,
        number(digits(n, k)) == n % tens(k),
        tens(k) > 0,
    decreases k,
{
    if k == 0 {
        assert(number(Seq::<char>::empty()) == 0);
        assert(n % 1 == 0);
    } else {
        let h = (k - 1) as nat;
        digits_read_back(n / 10, h);
        assert(digits(n, k).drop_last() =~= digits(n / 10, h));
        let t = tens(h);
        let c = crate::text::digit(n % 10);
        assert(digits(n, k).last() == c);
        assert(c as u32 - '0' as u32 == n % 10);
        assert(number(digits(n, k)) == 10 * ((n / 10) % t) + n % 10);
        assert(10 * ((n / 10) % t) + n % 10 == n % (10 * t)) by {
            vstd::arithmetic::div_mod::lemma_breakdown(n as int, 10, t as int);
        }
    }
}

} // verus!

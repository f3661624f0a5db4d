//! A decimal fixed-point arithmetic.
//!
//! A number is a count of millionths. Results that are too great or too small
//! become the greatest or the smallest number, and the greatest number stands for
//! "out of reach".
use vstd::prelude::*;

use crate::scalar::{Arithmetic, Scalar};
use crate::text::{decimal_string, joined};

verus! {

/// How many parts a unit has.
pub const UNIT: u64 = 1_000_000;

/// The word of zero: the order of numbers is that of their words.
pub const ZERO: u64 = 0x8000_0000_0000_0000;

/// Numbers with six decimals, from about -9.2e12 to 9.2e12.
#[derive(Clone, Copy, Debug)]
pub struct Fixed;

/// A number as a count of millionths.
pub open spec fn parts(a: Scalar) -> int {
    a.bits - ZERO
}

/// The number with a count of millionths; the nearest there is where the count
/// is out of range.
pub open spec fn with_parts(v: int) -> Scalar {
    if v < -ZERO {
        Scalar { bits: 0 }
    } else if v > u64::MAX - ZERO {
        Scalar { bits: u64::MAX }
    } else {
        Scalar { bits: (v + ZERO) as u64 }
    }
}

/// The number stands for "out of reach".
pub open spec fn boundless(a: Scalar) -> bool {
    a.bits == u64::MAX
}

/// A quotient, rounded toward zero.
pub open spec fn quotient(n: int, d: int) -> int {
    let q = magnitude(n) / magnitude(d);
    if (n < 0) == (d < 0) {
        q
    } else {
        -q
    }
}

/// A number without its sign.
pub open spec fn magnitude(n: int) -> int {
    if n < 0 {
        -n
    } else {
        n
    }
}

/// `r` is the greatest number whose square is at most `n`.
pub open spec fn is_root(n: int, r: int) -> bool {
    0 <= r && r * r <= n && n < (r + 1) * (r + 1)
}

/// The greatest number whose square is at most `n`.
pub open spec fn root(n: int) -> int {
    choose|r: int| is_root(n, r)
}

/// How often a number can be halved until it is below `2 * UNIT`.
pub open spec fn halvings(v: int) -> nat
    decreases v,
{
    if v < 2 * UNIT {
        0
    } else {
        halvings(v / 2) + 1
    }
}

/// What is left then.
pub open spec fn halved(v: int) -> int
    decreases v,
{
    if v < 2 * UNIT {
        v
    } else {
        halved(v / 2)
    }
}

/// How often a number above zero can be doubled until it is at least `UNIT`.
pub open spec fn doublings(v: int) -> nat
    decreases 2 * UNIT - v,
{
    if v <= 0 || v >= UNIT {
        0
    } else {
        doublings(2 * v) + 1
    }
}

/// What it is then.
pub open spec fn doubled(v: int) -> int
    decreases 2 * UNIT - v,
{
    if v <= 0 || v >= UNIT {
        v
    } else {
        doubled(2 * v)
    }
}

/// The logarithm of a count of millionths: that of the nearest power of two
/// below, and a straight line to the next.
pub open spec fn logarithm(v: int) -> int {
    let (k, rest) = if v >= UNIT {
        (halvings(v) as int, halved(v))
    } else {
        (-(doublings(v) as int), doubled(v))
    };
    k * 693147 + (rest - UNIT) * 693147 / UNIT as int
}

/// The last `k` digits of a number.
pub open spec fn digits(n: nat, k: nat) -> Seq<char>
    decreases k,
{
    if k == 0 {
        Seq::empty()
    } else {
        digits(n / 10, (k - 1) as nat).push(crate::text::digit(n % 10))
    }
}

/// A power of ten.
pub open spec fn tens(k: nat) -> nat
    decreases k,
{
    if k == 0 {
        1
    } else {
        10 * tens((k - 1) as nat)
    }
}

/// How many decimals are written: six at most.
pub open spec fn written(places: u32) -> nat {
    if places < 6 {
        places as nat
    } else {
        6
    }
}

/// A number with some decimals, the rest cut off.
pub open spec fn cut(a: Scalar, places: u32) -> Seq<char> {
    let k = written(places);
    let n = magnitude(parts(a)) as nat;
    let sign: Seq<char> = if parts(a) < 0 {
        "-"@
    } else {
        ""@
    };
    let whole = sign + crate::text::decimal(n / UNIT as nat);
    if k == 0 {
        whole
    } else {
        whole + "."@ + digits((n % UNIT as nat) / tens((6 - k) as nat), k)
    }
}

/// A number with some decimals, or a word where it is out of reach.
pub open spec fn plain(a: Scalar, places: u32) -> Seq<char> {
    if boundless(a) {
        "inf"@
    } else {
        cut(a, places)
    }
}

/// A number with an exponent, or a word where it is out of reach.
pub open spec fn powered(a: Scalar) -> Seq<char> {
    if boundless(a) {
        "inf"@
    } else {
        cut(a, 6) + "e0"@
    }
}

/// The string with a text.
pub open spec fn string_with(text: Seq<char>) -> String {
    choose|s: String| #[trigger] s@ == text
}

/// A number with some decimals, or a word where it is out of reach.
pub fn plain_text(a: Scalar, places: u32) -> (r: String)
    ensures
        r@ == plain(a, places),
{
    if a.bits == u64::MAX {
        return "inf".to_owned();
    }
    let k: u32 = if places < 6 {
        places
    } else {
        6
    };
    let n: u64 = if a.bits < ZERO {
        ZERO - a.bits
    } else {
        a.bits - ZERO
    };
    let sign = if a.bits < ZERO {
        "-"
    } else {
        ""
    };
    let whole = joined(sign, decimal_string(n / UNIT).as_str());
    if k == 0 {
        return whole;
    }
    let rest: u64 = (n % UNIT) / power_of_ten(6 - k);
    joined(joined(whole.as_str(), ".").as_str(), digit_text(rest, k).as_str())
}

/// A number with an exponent, or a word where it is out of reach.
pub fn powered_text(a: Scalar) -> (r: String)
    ensures
        r@ == powered(a),
{
    let r = plain_text(a, 6);
    if a.bits == u64::MAX {
        return r;
    }
    joined(r.as_str(), "e0")
}

proof fn root_is_unique(n: int, a: int, b: int)
    requires
        is_root(n, a),
        is_root(n, b),
    ensures
        a == b,
{
    if a < b {
        assert((a + 1) * (a + 1) <= b * b) by (nonlinear_arith)
            requires
                0 <= a,
                a + 1 <= b,
        ;
    }
    if b < a {
        assert((b + 1) * (b + 1) <= a * a) by (nonlinear_arith)
            requires
                0 <= b,
                b + 1 <= a,
        ;
    }
}

fn count(a: Scalar) -> (v: i128)
    ensures
        v == parts(a),
{
    a.bits as i128 - ZERO as i128
}

fn number(v: i128) -> (r: Scalar)
    ensures
        r == with_parts(v as int),
{
    if v < -(ZERO as i128) {
        Scalar { bits: 0 }
    } else if v > (u64::MAX - ZERO) as i128 {
        Scalar { bits: u64::MAX }
    } else {
        Scalar { bits: (v + ZERO as i128) as u64 }
    }
}

fn size(v: i128) -> (r: u128)
    requires
        v > i128::MIN,
    ensures
        r == magnitude(v as int),
{
    if v < 0 {
        (-v) as u128
    } else {
        v as u128
    }
}

fn divided(n: i128, d: i128) -> (r: i128)
    requires
        n > i128::MIN,
        d > i128::MIN,
        d != 0,
    ensures
        r == quotient(n as int, d as int),
{
    let (a, b): (u128, u128) = (size(n), size(d));
    let q: u128 = a / b;
    assert(q <= a) by (nonlinear_arith)
        requires
            q == a / b,
            b > 0,
    ;
    if (n < 0) == (d < 0) {
        q as i128
    } else {
        -(q as i128)
    }
}

fn root_of(n: u128) -> (r: u64)
    requires
        n < 0x1_0000_0000_0000_0000_0000_0000,
    ensures
        r == root(n as int),
{
    let mut low: u64 = 0;
    let mut high: u64 = 0x1_0000_0000_0000;
    while high - low > 1
        invariant
            low < high <= 0x1_0000_0000_0000,
            low * low <= n,
            n < high * high,
        decreases high - low,
    {
        let mid: u64 = low + (high - low) / 2;
        assert(mid * mid < 0x1_0000_0000_0000_0000_0000_0000) by (nonlinear_arith)
            requires
                mid < 0x1_0000_0000_0000,
        ;
        if mid as u128 * mid as u128 <= n {
            low = mid;
        } else {
            high = mid;
        }
    }
    proof {
        assert(is_root(n as int, low as int));
        root_is_unique(n as int, low as int, root(n as int));
    }
    low
}

fn log_of(v: u64) -> (r: i128)
    requires
        v > 0,
    ensures
        r == logarithm(v as int),
        -100_000_000 < r < 100_000_000,
{
    let mut rest: u64 = v;
    let mut k: i128 = 0;
    assert(v as int * pow2_of(0) == v) by (nonlinear_arith)
        requires
            pow2_of(0) == 1,
    ;
    if v >= UNIT {
        while rest >= 2 * UNIT
            invariant
                v >= UNIT,
                rest >= UNIT,
                0 <= k,
                k + halvings(rest as int) == halvings(v as int),
                halved(rest as int) == halved(v as int),
                k <= 64,
                rest as int * pow2_of(k as nat) <= v,
            decreases rest,
        {
            proof {
                let half = rest as int / 2;
                let p = pow2_of(k as nat);
                assert(half * (2 * p) <= v) by (nonlinear_arith)
                    requires
                        half * 2 <= rest,
                        rest as int * p <= v,
                        p >= 0,
                ;
                pow2_grows((k + 1) as nat);
                assert(half * pow2_of((k + 1) as nat) <= v);
                if k >= 64 {
                    pow2_over(k as nat);
                    assert(rest as int * p > u64::MAX) by (nonlinear_arith)
                        requires
                            p > u64::MAX,
                            rest >= 1,
                    ;
                }
            }
            rest = rest / 2;
            k = k + 1;
        }
    } else {
        while rest < UNIT
            invariant
                0 < v < UNIT,
                0 < rest < 2 * UNIT,
                -64 <= k <= 0,
                -k + doublings(rest as int) == doublings(v as int),
                doubled(rest as int) == doubled(v as int),
                v as int * pow2_of((-k) as nat) == rest,
            decreases 2 * UNIT - rest,
        {
            proof {
                let p = pow2_of((-k) as nat);
                pow2_grows((1 - k) as nat);
                assert(v as int * (2 * p) == 2 * rest) by (nonlinear_arith)
                    requires
                        v as int * p == rest,
                ;
                if k <= -64 {
                    pow2_over((-k) as nat);
                    assert(v as int * p > u64::MAX) by (nonlinear_arith)
                        requires
                            p > u64::MAX,
                            v >= 1,
                    ;
                }
            }
            rest = rest * 2;
            k = k - 1;
        }
    }
    assert(UNIT <= rest < 2 * UNIT);
    let part: u64 = (rest - UNIT) * 693147 / UNIT;
    assert(part <= 693147);
    k * 693147 + part as i128
}

spec fn pow2_of(k: nat) -> nat
    decreases k,
{
    if k == 0 {
        1
    } else {
        2 * pow2_of((k - 1) as nat)
    }
}

proof fn pow2_grows(k: nat)
    ensures
        pow2_of(k) >= 1,
        k > 0 ==> pow2_of(k) == 2 * pow2_of((k - 1) as nat),
    decreases k,
{
    if k > 0 {
        pow2_grows((k - 1) as nat);
    }
}

proof fn pow2_over(k: nat)
    requires
        k >= 64,
    ensures
        pow2_of(k) > u64::MAX,
    decreases k,
{
    if k == 64 {
        reveal_with_fuel(pow2_of, 65);
    } else {
        pow2_over((k - 1) as nat);
    }
}

/// The last `k` digits of a number.
fn digit_text(n: u64, k: u32) -> (r: String)
    ensures
        r@ == digits(n as nat, k as nat),
    decreases k,
{
    if k == 0 {
        return String::new();
    }
    let mut r = digit_text(n / 10, k - 1);
    r.push(crate::text::digit_char(n % 10));
    r
}

fn power_of_ten(k: u32) -> (r: u64)
    requires
        k <= 6,
    ensures
        r == tens(k as nat),
        1 <= r <= UNIT,
{
    proof {
        reveal_with_fuel(tens, 7);
    }
    if k == 0 {
        1
    } else if k == 1 {
        10
    } else if k == 2 {
        100
    } else if k == 3 {
        1_000
    } else if k == 4 {
        10_000
    } else if k == 5 {
        100_000
    } else {
        1_000_000
    }
}

impl Arithmetic for Fixed {
    open spec fn ratio_spec(&self, num: u64, den: u64) -> Scalar {
        with_parts((num * UNIT) / den as int)
    }

    open spec fn infinity_spec(&self) -> Scalar {
        Scalar { bits: u64::MAX }
    }

    open spec fn plus_spec(&self, a: Scalar, b: Scalar) -> Scalar {
        if boundless(a) || boundless(b) {
            self.infinity_spec()
        } else {
            with_parts(parts(a) + parts(b))
        }
    }

    open spec fn minus_spec(&self, a: Scalar, b: Scalar) -> Scalar {
        if boundless(a) {
            a
        } else {
            with_parts(parts(a) - parts(b))
        }
    }

    open spec fn times_spec(&self, a: Scalar, b: Scalar) -> Scalar {
        if boundless(a) || boundless(b) {
            self.infinity_spec()
        } else {
            with_parts(quotient(parts(a) * parts(b), UNIT as int))
        }
    }

    open spec fn over_spec(&self, a: Scalar, b: Scalar) -> Scalar {
        if boundless(a) || parts(b) == 0 {
            self.infinity_spec()
        } else if boundless(b) {
            Scalar { bits: ZERO }
        } else {
            with_parts(quotient(parts(a) * UNIT, parts(b)))
        }
    }

    open spec fn abs_spec(&self, a: Scalar) -> Scalar {
        with_parts(magnitude(parts(a)))
    }

    open spec fn least_spec(&self, a: Scalar, b: Scalar) -> Scalar {
        if b.bits < a.bits {
            b
        } else {
            a
        }
    }

    open spec fn most_spec(&self, a: Scalar, b: Scalar) -> Scalar {
        if b.bits > a.bits {
            b
        } else {
            a
        }
    }

    open spec fn sqrt_spec(&self, a: Scalar) -> Scalar {
        if boundless(a) {
            a
        } else if parts(a) <= 0 {
            Scalar { bits: ZERO }
        } else {
            with_parts(root(parts(a) * UNIT))
        }
    }

    open spec fn ln_spec(&self, a: Scalar) -> Scalar {
        if boundless(a) {
            a
        } else if parts(a) <= 0 {
            Scalar { bits: 0 }
        } else {
            with_parts(logarithm(parts(a)))
        }
    }

    open spec fn ceil_spec(&self, a: Scalar) -> u64 {
        if parts(a) <= 0 {
            0
        } else {
            ((parts(a) + UNIT - 1) / UNIT as int) as u64
        }
    }

    open spec fn rank_spec(&self, a: Scalar) -> u32 {
        if parts(a) <= 0 {
            0
        } else {
            (parts(a) / 0x8000_0000) as u32
        }
    }

    open spec fn lt_spec(&self, a: Scalar, b: Scalar) -> bool {
        a.bits < b.bits
    }

    open spec fn le_spec(&self, a: Scalar, b: Scalar) -> bool {
        a.bits <= b.bits
    }

    open spec fn finite_spec(&self, a: Scalar) -> bool {
        !boundless(a)
    }

    open spec fn decimals_spec(&self, a: Scalar, places: u32) -> String {
        string_with(plain(a, places))
    }

    open spec fn scientific_spec(&self, a: Scalar) -> String {
        string_with(powered(a))
    }

    open spec fn total_before_spec(&self, a: Scalar, b: Scalar) -> bool {
        a.bits < b.bits
    }

    proof fn total_before_orders(&self) {
    }

    proof fn infinity_is_not_finite(&self) {
    }

    fn ratio(&self, num: u64, den: u64) -> (r: Scalar) {
        let n: u128 = num as u128 * UNIT as u128;
        let q: u128 = n / den as u128;
        assert(q <= n) by (nonlinear_arith)
            requires
                q == n / den as u128,
                den > 0,
        ;
        number(q as i128)
    }

    fn infinity(&self) -> (r: Scalar) {
        Scalar { bits: u64::MAX }
    }

    fn plus(&self, a: Scalar, b: Scalar) -> (r: Scalar) {
        if a.bits == u64::MAX || b.bits == u64::MAX {
            self.infinity()
        } else {
            number(count(a) + count(b))
        }
    }

    fn minus(&self, a: Scalar, b: Scalar) -> (r: Scalar) {
        if a.bits == u64::MAX {
            a
        } else {
            number(count(a) - count(b))
        }
    }

    fn times(&self, a: Scalar, b: Scalar) -> (r: Scalar) {
        if a.bits == u64::MAX || b.bits == u64::MAX {
            return self.infinity();
        }
        let (x, y): (i128, i128) = (count(a), count(b));
        assert(-0x4000_0000_0000_0000_0000_0000_0000_0000 <= x * y
            <= 0x4000_0000_0000_0000_0000_0000_0000_0000) by (nonlinear_arith)
            requires
                -0x8000_0000_0000_0000 <= x <= 0x8000_0000_0000_0000,
                -0x8000_0000_0000_0000 <= y <= 0x8000_0000_0000_0000,
        ;
        number(divided(x * y, UNIT as i128))
    }

    fn over(&self, a: Scalar, b: Scalar) -> (r: Scalar) {
        if a.bits == u64::MAX || b.bits == ZERO {
            self.infinity()
        } else if b.bits == u64::MAX {
            Scalar { bits: ZERO }
        } else {
            let n: i128 = count(a);
            number(divided(n * 1_000_000, count(b)))
        }
    }

    fn abs(&self, a: Scalar) -> (r: Scalar) {
        let v: i128 = count(a);
        if v < 0 {
            number(-v)
        } else {
            number(v)
        }
    }

    fn least(&self, a: Scalar, b: Scalar) -> (r: Scalar) {
        if b.bits < a.bits {
            b
        } else {
            a
        }
    }

    fn most(&self, a: Scalar, b: Scalar) -> (r: Scalar) {
        if b.bits > a.bits {
            b
        } else {
            a
        }
    }

    fn sqrt(&self, a: Scalar) -> (r: Scalar) {
        if a.bits == u64::MAX {
            a
        } else if a.bits <= ZERO {
            Scalar { bits: ZERO }
        } else {
            let n: u128 = (a.bits - ZERO) as u128;
            number(root_of(n * 1_000_000) as i128)
        }
    }

    fn ln(&self, a: Scalar) -> (r: Scalar) {
        if a.bits == u64::MAX {
            a
        } else if a.bits <= ZERO {
            Scalar { bits: 0 }
        } else {
            number(log_of(a.bits - ZERO))
        }
    }

    fn ceil(&self, a: Scalar) -> (r: u64) {
        if a.bits <= ZERO {
            0
        } else {
            (a.bits - ZERO + (UNIT - 1)) / UNIT
        }
    }

    fn rank(&self, a: Scalar) -> (r: u32) {
        if a.bits <= ZERO {
            0
        } else {
            ((a.bits - ZERO) / 0x8000_0000) as u32
        }
    }

    fn lt(&self, a: Scalar, b: Scalar) -> (r: bool) {
        a.bits < b.bits
    }

    fn le(&self, a: Scalar, b: Scalar) -> (r: bool) {
        a.bits <= b.bits
    }

    fn is_finite(&self, a: Scalar) -> (r: bool) {
        a.bits != u64::MAX
    }

    fn decimals(&self, a: Scalar, places: u32) -> (r: String)
        ensures
            r@ == plain(a, places),
    {
        plain_text(a, places)
    }

    fn scientific(&self, a: Scalar) -> (r: String)
        ensures
            r@ == powered(a),
    {
        powered_text(a)
    }

    fn total_before(&self, a: Scalar, b: Scalar) -> (r: bool) {
        a.bits < b.bits
    }
}

} // verus!

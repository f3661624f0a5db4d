//! What numbers stand for: laws on formulas are stated over whole numbers of small
//! parts, for every arithmetic that rounds products and quotients down to such a
//! part. Fixed-point arithmetic is one.
use vstd::prelude::*;

use crate::fixed::Fixed;
use crate::scalar::{Arithmetic, Scalar};

verus! {

/// How many parts a number has, how many a unit has, and which numbers are within
/// range.
pub struct Scale {
    pub of: spec_fn(Scalar) -> int,
    pub unit: int,
    pub fits: spec_fn(Scalar) -> bool,
}

/// `x` is `n / d`, rounded down.
pub open spec fn floors(x: int, n: int, d: int) -> bool {
    x * d <= n && n < x * d + d
}

impl Scale {
    /// A number within range that is not negative.
    pub open spec fn amount(self, a: Scalar) -> bool {
        (self.fits)(a) && (self.of)(a) >= 0
    }

    /// Within range the arithmetic compares and adds as whole numbers do, and rounds
    /// fractions, products and quotients of amounts down to a part. What counts as
    /// nothing has no part.
    pub open spec fn measures<A: Arithmetic>(self, ar: A) -> bool {
        &&& self.unit > 0
        &&& self.nothing(ar)
        &&& self.compares(ar)
        &&& self.adds(ar)
        &&& self.multiplies(ar)
    }

    pub open spec fn nothing<A: Arithmetic>(self, ar: A) -> bool {
        let eps = crate::planner::tree::eps(ar);
        &&& (self.fits)(eps) && (self.of)(eps) == 0
        &&& (self.fits)(ar.ratio_spec(0, 1))
        &&& (self.fits)(ar.ratio_spec(1, 1))
    }

    pub open spec fn compares<A: Arithmetic>(self, ar: A) -> bool {
        &&& forall|a: Scalar| #[trigger] (self.fits)(a) ==> ar.finite_spec(a)
        &&& forall|a: Scalar, b: Scalar|
            (self.fits)(a) && (self.fits)(b) ==> (#[trigger] ar.lt_spec(a, b) <==> (self.of)(a)
                < (self.of)(b))
        &&& forall|a: Scalar, b: Scalar|
            (self.fits)(a) && (self.fits)(b) ==> (#[trigger] ar.le_spec(a, b) <==> (self.of)(a)
                <= (self.of)(b))
        &&& forall|a: Scalar, b: Scalar|
            (self.fits)(a) && (self.fits)(b) ==> (#[trigger] ar.total_before_spec(a, b) <==> (
            self.of)(a) < (self.of)(b))
        &&& forall|a: Scalar|
            (self.fits)(a) && (self.fits)(#[trigger] ar.abs_spec(a)) ==> (self.of)(ar.abs_spec(a))
                == if (self.of)(a) < 0 {
                -(self.of)(a)
            } else {
                (self.of)(a)
            }
        &&& forall|a: Scalar|
            self.amount(a) ==> floors(
                #[trigger] ar.ceil_spec(a) as int,
                (self.of)(a) + self.unit - 1,
                self.unit,
            )
    }

    pub open spec fn adds<A: Arithmetic>(self, ar: A) -> bool {
        &&& forall|a: Scalar, b: Scalar|
            (self.fits)(a) && (self.fits)(b) && (self.fits)(#[trigger] ar.plus_spec(a, b)) ==> (
            self.of)(ar.plus_spec(a, b)) == (self.of)(a) + (self.of)(b)
        &&& forall|a: Scalar, b: Scalar|
            (self.fits)(a) && (self.fits)(b) && (self.fits)(#[trigger] ar.minus_spec(a, b)) ==> (
            self.of)(ar.minus_spec(a, b)) == (self.of)(a) - (self.of)(b)
    }

    pub open spec fn multiplies<A: Arithmetic>(self, ar: A) -> bool {
        &&& forall|n: u64, d: u64|
            d > 0 && (self.fits)(#[trigger] ar.ratio_spec(n, d)) ==> floors(
                (self.of)(ar.ratio_spec(n, d)),
                n * self.unit,
                d as int,
            ) && (self.of)(ar.ratio_spec(n, d)) >= 0
        &&& forall|a: Scalar, b: Scalar|
            self.amount(a) && self.amount(b) && (self.fits)(#[trigger] ar.times_spec(a, b))
                ==> floors(
                (self.of)(ar.times_spec(a, b)),
                (self.of)(a) * (self.of)(b),
                self.unit,
            ) && (self.of)(ar.times_spec(a, b)) >= 0
        &&& forall|a: Scalar, b: Scalar|
            self.amount(a) && self.amount(b) && (self.of)(b) > 0 && (self.fits)(
                #[trigger] ar.over_spec(a, b),
            ) ==> floors(
                (self.of)(ar.over_spec(a, b)),
                (self.of)(a) * self.unit,
                (self.of)(b),
            ) && (self.of)(ar.over_spec(a, b)) >= 0
    }

    /// A whole number has a unit of parts for each one.
    pub proof fn whole<A: Arithmetic>(self, ar: A, n: u64)
        requires
            self.measures(ar),
            (self.fits)(ar.ratio_spec(n, 1)),
        ensures
            (self.of)(ar.ratio_spec(n, 1)) == n * self.unit,
    {
    }
}

/// Fixed-point numbers as counts of millionths, those at the ends of the range left
/// out.
pub open spec fn fixed_scale() -> Scale {
    Scale {
        of: |a: Scalar| crate::fixed::parts(a),
        unit: crate::fixed::UNIT as int,
        fits: |a: Scalar| 0 < a.bits < u64::MAX,
    }
}

proof fn quotient_floors(n: int, d: int)
    requires
        n >= 0,
        d > 0,
    ensures
        floors(crate::fixed::quotient(n, d), n, d),
        floors(n / d, n, d),
        crate::fixed::quotient(n, d) >= 0,
        n / d >= 0,
{
    assert((n / d) * d <= n && n < (n / d) * d + d && n / d >= 0) by (nonlinear_arith)
        requires
            n >= 0,
            d > 0,
    ;
}

/// Fixed-point arithmetic rounds down to a millionth.
pub proof fn fixed_measures()
    ensures
        fixed_scale().measures(Fixed),
{
    let w = fixed_scale();
    let ar = Fixed;
    assert(w.adds(ar));
    assert(w.nothing(ar)) by {
        assert(1 * crate::fixed::UNIT == crate::fixed::UNIT);
    }
    assert forall|a: Scalar| w.amount(a) implies floors(
        #[trigger] ar.ceil_spec(a) as int,
        (w.of)(a) + w.unit - 1,
        w.unit,
    ) by {
        let n = crate::fixed::parts(a) + crate::fixed::UNIT - 1;
        quotient_floors(n, crate::fixed::UNIT as int);
    }
    assert(w.compares(ar));
    assert forall|n: u64, d: u64| d > 0 && (w.fits)(#[trigger] ar.ratio_spec(n, d)) implies floors(
        (w.of)(ar.ratio_spec(n, d)),
        n * w.unit,
        d as int,
    ) && (w.of)(ar.ratio_spec(n, d)) >= 0 by {
        quotient_floors(n * crate::fixed::UNIT, d as int);
    }
    assert forall|a: Scalar, b: Scalar|
        w.amount(a) && w.amount(b) && (w.fits)(#[trigger] ar.times_spec(a, b)) implies floors(
        (w.of)(ar.times_spec(a, b)),
        (w.of)(a) * (w.of)(b),
        w.unit,
    ) && (w.of)(ar.times_spec(a, b)) >= 0 by {
        let n = crate::fixed::parts(a) * crate::fixed::parts(b);
        assert(n >= 0) by (nonlinear_arith)
            requires
                n == crate::fixed::parts(a) * crate::fixed::parts(b),
                crate::fixed::parts(a) >= 0,
                crate::fixed::parts(b) >= 0,
        ;
        quotient_floors(n, crate::fixed::UNIT as int);
    }
    assert forall|a: Scalar, b: Scalar|
        w.amount(a) && w.amount(b) && (w.of)(b) > 0 && (w.fits)(
            #[trigger] ar.over_spec(a, b),
        ) implies floors((w.of)(ar.over_spec(a, b)), (w.of)(a) * w.unit, (w.of)(b)) && (w.of)(
        ar.over_spec(a, b),
    ) >= 0 by {
        quotient_floors(crate::fixed::parts(a) * crate::fixed::UNIT, crate::fixed::parts(b));
    }
    assert(w.multiplies(ar));
}

} // verus!

//! Numbers of the planner.
//!
//! Rates, costs and chances are 64-bit words whose meaning is given by an
//! [`Arithmetic`]. Every algorithm of the crate is written against that trait,
//! so what is proved of an algorithm holds whichever arithmetic runs it:
//! [`crate::fixed::Fixed`] is a decimal fixed-point arithmetic, and a binary floating-point
//! one can be supplied by the program that uses the library.
use vstd::prelude::*;

verus! {

/// A number, as the word that an [`Arithmetic`] reads.
#[derive(Clone, Copy, Debug, PartialEq, Eq, Structural)]
pub struct Scalar {
    pub bits: u64,
}

/// What the planner computes with.
///
/// Each operation is a function of its operands: it returns the value of the
/// function with `_spec` that stands beside it. No law of arithmetic is asked for, so
/// that rounding arithmetics qualify; only `total_before` has to order the
/// numbers.
pub trait Arithmetic: Sized {
    /// The number `num / den`.
    spec fn ratio_spec(&self, num: u64, den: u64) -> Scalar;

    /// The number that stands for "out of reach".
    spec fn infinity_spec(&self) -> Scalar;

    spec fn plus_spec(&self, a: Scalar, b: Scalar) -> Scalar;

    spec fn minus_spec(&self, a: Scalar, b: Scalar) -> Scalar;

    spec fn times_spec(&self, a: Scalar, b: Scalar) -> Scalar;

    spec fn over_spec(&self, a: Scalar, b: Scalar) -> Scalar;

    spec fn abs_spec(&self, a: Scalar) -> Scalar;

    /// The smaller of two numbers.
    spec fn least_spec(&self, a: Scalar, b: Scalar) -> Scalar;

    /// The greater of two numbers.
    spec fn most_spec(&self, a: Scalar, b: Scalar) -> Scalar;

    spec fn sqrt_spec(&self, a: Scalar) -> Scalar;

    /// Natural logarithm.
    spec fn ln_spec(&self, a: Scalar) -> Scalar;

    /// The smallest whole number that is not below `a`.
    spec fn ceil_spec(&self, a: Scalar) -> u64;

    /// An order-preserving 32-bit key of a number that is not negative.
    spec fn rank_spec(&self, a: Scalar) -> u32;

    spec fn lt_spec(&self, a: Scalar, b: Scalar) -> bool;

    spec fn le_spec(&self, a: Scalar, b: Scalar) -> bool;

    spec fn finite_spec(&self, a: Scalar) -> bool;

    /// A number with the given number of decimals.
    spec fn decimals_spec(&self, a: Scalar, places: u32) -> String;

    /// A number with an exponent.
    spec fn scientific_spec(&self, a: Scalar) -> String;

    /// Whether `a` comes before `b` in the order in which results are listed.
    spec fn total_before_spec(&self, a: Scalar, b: Scalar) -> bool;

    /// `total_before` is a strict weak order.
    proof fn total_before_orders(&self)
        ensures
            forall|a: Scalar| !#[trigger] self.total_before_spec(a, a),
            forall|a: Scalar, b: Scalar, c: Scalar|
                #[trigger] self.total_before_spec(a, b) && #[trigger] self.total_before_spec(b, c)
                    ==> self.total_before_spec(a, c),
            forall|a: Scalar, b: Scalar, c: Scalar|
                #![trigger self.total_before_spec(a, c), self.total_before_spec(a, b)]
                #![trigger self.total_before_spec(a, c), self.total_before_spec(b, c)]
                self.total_before_spec(a, c) ==> self.total_before_spec(a, b)
                    || self.total_before_spec(b, c),
    ;

    /// What is infinite is not finite.
    proof fn infinity_is_not_finite(&self)
        ensures
            !self.finite_spec(self.infinity_spec()),
    ;

    fn ratio(&self, num: u64, den: u64) -> (r: Scalar)
        requires
            den > 0,
        ensures
            r == self.ratio_spec(num, den),
    ;

    fn infinity(&self) -> (r: Scalar)
        ensures
            r == self.infinity_spec(),
    ;

    fn plus(&self, a: Scalar, b: Scalar) -> (r: Scalar)
        ensures
            r == self.plus_spec(a, b),
    ;

    fn minus(&self, a: Scalar, b: Scalar) -> (r: Scalar)
        ensures
            r == self.minus_spec(a, b),
    ;

    fn times(&self, a: Scalar, b: Scalar) -> (r: Scalar)
        ensures
            r == self.times_spec(a, b),
    ;

    fn over(&self, a: Scalar, b: Scalar) -> (r: Scalar)
        ensures
            r == self.over_spec(a, b),
    ;

    fn abs(&self, a: Scalar) -> (r: Scalar)
        ensures
            r == self.abs_spec(a),
    ;

    fn least(&self, a: Scalar, b: Scalar) -> (r: Scalar)
        ensures
            r == self.least_spec(a, b),
    ;

    fn most(&self, a: Scalar, b: Scalar) -> (r: Scalar)
        ensures
            r == self.most_spec(a, b),
    ;

    fn sqrt(&self, a: Scalar) -> (r: Scalar)
        ensures
            r == self.sqrt_spec(a),
    ;

    fn ln(&self, a: Scalar) -> (r: Scalar)
        ensures
            r == self.ln_spec(a),
    ;

    fn ceil(&self, a: Scalar) -> (r: u64)
        ensures
            r == self.ceil_spec(a),
    ;

    fn rank(&self, a: Scalar) -> (r: u32)
        ensures
            r == self.rank_spec(a),
    ;

    fn lt(&self, a: Scalar, b: Scalar) -> (r: bool)
        ensures
            r == self.lt_spec(a, b),
    ;

    fn le(&self, a: Scalar, b: Scalar) -> (r: bool)
        ensures
            r == self.le_spec(a, b),
    ;

    fn is_finite(&self, a: Scalar) -> (r: bool)
        ensures
            r == self.finite_spec(a),
    ;

    fn decimals(&self, a: Scalar, places: u32) -> (r: String)
        ensures
            r@ == self.decimals_spec(a, places)@,
    ;

    fn scientific(&self, a: Scalar) -> (r: String)
        ensures
            r@ == self.scientific_spec(a)@,
    ;

    fn total_before(&self, a: Scalar, b: Scalar) -> (r: bool)
        ensures
            r == self.total_before_spec(a, b),
    ;
}

} // verus!

//! Scores of expansions.
use vstd::prelude::*;

use crate::planner::tree::{Expanded, TreeResult};
use crate::scalar::{Arithmetic, Scalar};

verus! {

/// The score of an expansion: what it costs, and a little for its operations.
pub open spec fn score_of<A: Arithmetic>(ar: A, ops_penalty: Scalar, e: Expanded) -> Scalar {
    ar.plus_spec(e.estimated_cost, ar.times_spec(ops_penalty, e.ops_total))
}

/// The score of an expansion.
pub fn rate<A: Arithmetic>(ar: &A, ops_penalty: Scalar, e: &TreeResult) -> (r: Scalar)
    ensures
        r == score_of(*ar, ops_penalty, e@),
{
    ar.plus(e.estimated_cost, ar.times(ops_penalty, e.ops_total))
}

/// Score `a` is better than `b`.
pub open spec fn better<A: Arithmetic>(ar: A, a: Scalar, b: Scalar) -> bool {
    ar.lt_spec(a, ar.minus_spec(b, crate::planner::tree::eps(ar)))
}

/// Score `a` is better than `b`.
pub fn is_better<A: Arithmetic>(ar: &A, a: Scalar, b: Scalar) -> (r: bool)
    ensures
        r == better(*ar, a, b),
{
    ar.lt(a, ar.minus(b, ar.ratio(1, 1_000_000_000)))
}

/// Scores that get better from each one to the next.
pub open spec fn descent<A: Arithmetic>(ar: A, scores: Seq<Scalar>) -> bool {
    forall|i: int, j: int|
        #![trigger scores[i], scores[j]]
        0 <= i && j == i + 1 && j < scores.len() ==> better(ar, scores[j], scores[i])
}

/// Score `b` is `a`, or is reached from it by getting better step by step.
pub open spec fn descends<A: Arithmetic>(ar: A, a: Scalar, b: Scalar) -> bool {
    exists|scores: Seq<Scalar>| #[trigger]
        descent(ar, scores) && scores.len() > 0 && scores[0] == a && scores.last() == b
}

/// A score that is better than one that was reached is reached too.
pub proof fn descends_further<A: Arithmetic>(ar: A, a: Scalar, b: Scalar, c: Scalar)
    requires
        descends(ar, a, b),
        better(ar, c, b),
    ensures
        descends(ar, a, c),
{
    let scores = choose|scores: Seq<Scalar>| #[trigger]
        descent(ar, scores) && scores.len() > 0 && scores[0] == a && scores.last() == b;
    let next = scores.push(c);
    assert(descent(ar, next)) by {
        assert forall|i: int, j: int|
            #![trigger next[i], next[j]]
            0 <= i && j == i + 1 && j < next.len() implies better(ar, next[j], next[i]) by {
            if j < scores.len() {
                assert(better(ar, scores[j], scores[i]));
            }
        }
    }
    assert(next.last() == c);
}

/// What is reached from a score that was reached is reached too.
pub proof fn descends_on<A: Arithmetic>(ar: A, a: Scalar, b: Scalar, c: Scalar)
    requires
        descends(ar, a, b),
        descends(ar, b, c),
    ensures
        descends(ar, a, c),
{
    let first = choose|scores: Seq<Scalar>| #[trigger]
        descent(ar, scores) && scores.len() > 0 && scores[0] == a && scores.last() == b;
    let second = choose|scores: Seq<Scalar>| #[trigger]
        descent(ar, scores) && scores.len() > 0 && scores[0] == b && scores.last() == c;
    let all = first + second.drop_first();
    assert(descent(ar, all)) by {
        assert forall|i: int, j: int|
            #![trigger all[i], all[j]]
            0 <= i && j == i + 1 && j < all.len() implies better(ar, all[j], all[i]) by {
            let n = first.len() as int;
            if j < n {
                assert(better(ar, first[j], first[i]));
            } else {
                assert(all[j] == second[j - n + 1]);
                assert(all[i] == second[i - n + 1]);
                assert(better(ar, second[j - n + 1], second[i - n + 1]));
            }
        }
    }
    assert(all[0] == a);
    assert(all.last() == c);
}

/// A score is reached from itself.
pub proof fn descends_not<A: Arithmetic>(ar: A, a: Scalar)
    ensures
        descends(ar, a, a),
{
    assert(descent(ar, seq![a]));
}

} // verus!

//! Small helpers on vectors and numbers.
use vstd::prelude::*;

verus! {

/// `n` copies of `x`.
pub fn filled<T: Copy>(n: usize, x: T) -> (r: Vec<T>)
    ensures
        r@ == Seq::new(n as nat, |i: int| x),
{
    let mut r: Vec<T> = Vec::new();
    let mut i: usize = 0;
    while i < n
        invariant
            i <= n,
            r@ == Seq::new(i as nat, |k: int| x),
        decreases n - i,
    {
        r.push(x);
        i += 1;
        assert(r@ =~= Seq::new(i as nat, |k: int| x));
    }
    r
}

/// A sum, or the greatest number where that is greater.
pub open spec fn capped(a: usize, b: usize) -> usize {
    if a + b > usize::MAX {
        usize::MAX
    } else {
        (a + b) as usize
    }
}

/// A sum, or the greatest number where that is greater.
pub fn sum_capped(a: usize, b: usize) -> (r: usize)
    ensures
        r == capped(a, b),
{
    if a > usize::MAX - b {
        usize::MAX
    } else {
        a + b
    }
}

/// The last place of a number in a list.
pub open spec fn place(list: Seq<u32>, x: u32) -> Option<usize>
    decreases list.len(),
{
    if list.len() == 0 {
        None
    } else if list.last() == x {
        Some((list.len() - 1) as usize)
    } else {
        place(list.drop_last(), x)
    }
}

/// What stands at a place is what was looked for.
pub proof fn place_below(list: Seq<u32>, x: u32)
    requires
        list.len() <= usize::MAX,
    ensures
        place(list, x) matches Some(at) ==> at < list.len() && list[at as int] == x,
    decreases list.len(),
{
    if list.len() > 0 && list.last() != x {
        place_below(list.drop_last(), x);
    }
}

/// What has no place is not there.
pub proof fn place_none(list: Seq<u32>, x: u32)
    requires
        place(list, x) is None,
    ensures
        !list.contains(x),
    decreases list.len(),
{
    if list.len() > 0 {
        place_none(list.drop_last(), x);
        if list.contains(x) {
            let i = choose|i: int| 0 <= i < list.len() && list[i] == x;
            assert(list.drop_last()[i] == x);
        }
    }
}

/// Different numbers below `n` are at most `n`.
pub proof fn distinct_below(list: Seq<u32>, n: int)
    requires
        list.no_duplicates(),
        forall|i: int| 0 <= i < list.len() ==> #[trigger] list[i] < n,
        n >= 0,
    ensures
        list.len() <= n,
    decreases n,
{
    if n == 0 {
        if list.len() > 0 {
            assert(list[0] < 0);
        }
    } else if list.contains((n - 1) as u32) && n - 1 <= u32::MAX {
        let at = choose|i: int| 0 <= i < list.len() && list[i] == (n - 1) as u32;
        let rest = list.remove(at);
        assert forall|i: int| 0 <= i < rest.len() implies #[trigger] rest[i] < n - 1 by {
            if i < at {
                assert(rest[i] == list[i]);
                assert(list[i] != list[at]);
            } else {
                assert(rest[i] == list[i + 1]);
                assert(list[i + 1] != list[at]);
            }
        }
        assert forall|i: int, j: int| 0 <= i < rest.len() && 0 <= j < rest.len() && i != j implies rest[i]
            != rest[j] by {
            let a = if i < at { i } else { i + 1 };
            let b = if j < at { j } else { j + 1 };
            assert(rest[i] == list[a]);
            assert(rest[j] == list[b]);
        }
        distinct_below(rest, n - 1);
    } else {
        assert forall|i: int| 0 <= i < list.len() implies #[trigger] list[i] < n - 1 by {
            if list[i] == n - 1 {
                assert(list.contains((n - 1) as u32));
            }
        }
        distinct_below(list, n - 1);
    }
}

} // verus!

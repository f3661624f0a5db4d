//! Stable sorting.
use vstd::prelude::*;

verus! {

/// `before` is a strict weak order on the positions below `n`.
pub open spec fn orders(before: spec_fn(int, int) -> bool, n: int) -> bool {
    &&& forall|i: int| 0 <= i < n ==> !#[trigger] before(i, i)
    &&& forall|i: int, j: int, k: int|
        0 <= i < n && 0 <= j < n && 0 <= k < n && #[trigger] before(i, j) && #[trigger] before(j, k)
            ==> before(i, k)
    &&& forall|i: int, j: int, k: int|
        #![trigger before(i, k), before(i, j)]
        #![trigger before(i, k), before(j, k)]
        0 <= i < n && 0 <= j < n && 0 <= k < n && before(i, k) ==> before(i, j) || before(j, k)
}

/// Position `i` is listed ahead of position `j`: it comes before it, or ties
/// with it and stood ahead of it.
pub open spec fn ahead(before: spec_fn(int, int) -> bool, i: int, j: int) -> bool {
    before(i, j) || (!before(j, i) && i < j)
}

/// `p` lists the positions below `n` in order, and ties as they stood.
pub open spec fn stable_order(before: spec_fn(int, int) -> bool, n: int, p: Seq<usize>) -> bool {
    &&& p.len() == n
    &&& forall|a: int| 0 <= a < n ==> 0 <= #[trigger] p[a] < n
    &&& forall|a: int, b: int| 0 <= a < b < n ==> ahead(before, #[trigger] p[a] as int, #[trigger] p[b] as int)
}

/// The items of `s` in the order of `p`.
pub open spec fn listed<T>(s: Seq<T>, p: Seq<usize>) -> Seq<T> {
    Seq::new(p.len(), |i: int| s[p[i] as int])
}

/// `r` is `s` sorted by `before` (which relates positions of `s`), ties as they
/// stood.
pub open spec fn sorted_by<T>(s: Seq<T>, before: spec_fn(int, int) -> bool, r: Seq<T>) -> bool {
    exists|p: Seq<usize>|
        #[trigger] stable_order(before, s.len() as int, p) && r == listed(s, p)
}

/// `s` sorted by `before`, ties as they stood.
pub open spec fn sorted<T>(s: Seq<T>, before: spec_fn(int, int) -> bool) -> Seq<T> {
    listed(s, choose|p: Seq<usize>| #[trigger] stable_order(before, s.len() as int, p))
}

/// A list in stable order is the sorted list.
pub proof fn sorted_is<T>(s: Seq<T>, before: spec_fn(int, int) -> bool, p: Seq<usize>)
    requires
        orders(before, s.len() as int),
        stable_order(before, s.len() as int, p),
    ensures
        listed(s, p) == sorted(s, before),
{
    let q = choose|q: Seq<usize>| #[trigger] stable_order(before, s.len() as int, q);
    stable_order_is_unique(before, s.len() as int, p, q);
}

/// There is a stable order.
pub(crate) proof fn stable_order_exists(before: spec_fn(int, int) -> bool, n: int)
    requires
        0 <= n <= usize::MAX,
        orders(before, n),
    ensures
        exists|p: Seq<usize>| #[trigger] stable_order(before, n, p),
    decreases n,
{
    if n == 0 {
        assert(stable_order(before, 0, Seq::empty()));
    } else {
        stable_order_exists(before, n - 1);
        let p = choose|p: Seq<usize>| #[trigger] stable_order(before, n - 1, p);
        let x = (n - 1) as usize;
        let j = first_after(before, p, x as int, 0);
        first_after_splits(before, p, x as int, 0);
        let q = p.insert(j, x);
        assert forall|a: int, b: int| 0 <= a < b < n implies ahead(
            before,
            #[trigger] q[a] as int,
            #[trigger] q[b] as int,
        ) by {
            let a1 = if a < j { a } else { a - 1 };
            let b1 = if b < j { b } else { b - 1 };
            if a != j && b != j {
                assert(q[a] == p[a1] && q[b] == p[b1]);
            } else if a == j {
                assert(q[b] == p[b1]);
                assert(before(x as int, p[j] as int));
                if b1 > j {
                    assert(ahead(before, p[j] as int, p[b1] as int));
                    assert(before(x as int, p[b1] as int) || before(p[b1] as int, p[j] as int));
                }
            } else {
                assert(q[a] == p[a]);
                assert(!before(x as int, p[a] as int));
            }
        }
        assert(stable_order(before, n, q));
    }
}

/// The first place from `i` on whose position comes after `x`.
spec fn first_after(before: spec_fn(int, int) -> bool, p: Seq<usize>, x: int, i: int) -> int
    decreases p.len() - i,
{
    if i >= p.len() || before(x, p[i] as int) {
        i
    } else {
        first_after(before, p, x, i + 1)
    }
}

proof fn first_after_splits(before: spec_fn(int, int) -> bool, p: Seq<usize>, x: int, i: int)
    requires
        0 <= i <= p.len(),
    ensures
        ({
            let j = first_after(before, p, x, i);
            &&& i <= j <= p.len()
            &&& j < p.len() ==> before(x, p[j] as int)
            &&& forall|a: int| i <= a < j ==> !before(x, (#[trigger] p[a]) as int)
        }),
    decreases p.len() - i,
{
    if i < p.len() && !before(x, p[i] as int) {
        first_after_splits(before, p, x, i + 1);
    }
}

/// A sorted list holds just what the list holds, and whatever is listed first comes
/// ahead.
pub proof fn sorted_by_permutes<T>(s: Seq<T>, before: spec_fn(int, int) -> bool, r: Seq<T>)
    requires
        orders(before, s.len() as int),
        s.len() <= usize::MAX,
        sorted_by(s, before, r),
    ensures
        r.len() == s.len(),
        forall|i: int| 0 <= i < s.len() ==> r.contains(#[trigger] s[i]),
        forall|j: int| 0 <= j < r.len() ==> s.contains(#[trigger] r[j]),
        forall|j: int, k: int|
            0 <= j < k < r.len() ==> comes_ahead(s, before, #[trigger] r[j], #[trigger] r[k]),
{
    let n = s.len() as int;
    let p = choose|p: Seq<usize>| #[trigger] stable_order(before, n, p) && r == listed(s, p);
    stable_order_is_permutation(before, n, p);
    assert forall|i: int| 0 <= i < n implies r.contains(#[trigger] s[i]) by {
        assert(p.contains(i as usize));
        let j = choose|j: int| 0 <= j < p.len() && p[j] == i as usize;
        assert(r[j] == s[i]);
    }
    assert forall|j: int| 0 <= j < r.len() implies s.contains(#[trigger] r[j]) by {
        assert(s[p[j] as int] == r[j]);
    }
    assert forall|j: int, k: int| 0 <= j < k < r.len() implies comes_ahead(
        s,
        before,
        #[trigger] r[j],
        #[trigger] r[k],
    ) by {
        assert(ahead(before, p[j] as int, p[k] as int));
        assert(s[p[j] as int] == r[j] && s[p[k] as int] == r[k]);
    }
}

/// Two places of a list hold `x` and `y`, and the first comes ahead.
pub open spec fn comes_ahead<T>(s: Seq<T>, before: spec_fn(int, int) -> bool, x: T, y: T) -> bool {
    exists|a: int, b: int|
        0 <= a < s.len() && 0 <= b < s.len() && #[trigger] s[a] == x && #[trigger] s[b] == y
            && ahead(before, a, b)
}

/// A sorted list holds what the list holds.
pub proof fn sorted_holds<T>(s: Seq<T>, before: spec_fn(int, int) -> bool)
    requires
        s.len() <= usize::MAX,
        orders(before, s.len() as int),
    ensures
        sorted(s, before).len() == s.len(),
        forall|i: int| 0 <= i < s.len() ==> s.contains(#[trigger] sorted(s, before)[i]),
{
    stable_order_exists(before, s.len() as int);
    let p = choose|p: Seq<usize>| #[trigger] stable_order(before, s.len() as int, p);
    assert forall|i: int| 0 <= i < s.len() implies s.contains(#[trigger] sorted(s, before)[i]) by {
        assert(sorted(s, before)[i] == s[p[i] as int]);
    }
}

proof fn ahead_orders(before: spec_fn(int, int) -> bool, n: int, i: int, j: int, k: int)
    requires
        orders(before, n),
        0 <= i < n,
        0 <= j < n,
        0 <= k < n,
    ensures
        !ahead(before, i, i),
        ahead(before, i, j) && ahead(before, j, k) ==> ahead(before, i, k),
        i != j ==> ahead(before, i, j) || ahead(before, j, i),
        !(ahead(before, i, j) && ahead(before, j, i)),
{
    assert(!before(i, i));
    if before(i, j) && before(j, i) {
        assert(before(i, i));
    }
    if ahead(before, i, j) && ahead(before, j, k) {
        if before(i, j) {
            assert(before(i, k) || before(k, j));
            if before(j, k) {
                assert(before(i, k));
            }
        } else if before(j, k) {
            assert(before(j, i) || before(i, k));
        } else if before(k, i) {
            assert(before(k, j) || before(j, i));
        }
    }
}

/// A list of positions in order holds no position twice and all of them.
pub proof fn stable_order_is_permutation(
    before: spec_fn(int, int) -> bool,
    n: int,
    p: Seq<usize>,
)
    requires
        n >= 0,
        orders(before, n),
        stable_order(before, n, p),
    ensures
        p.no_duplicates(),
        forall|x: usize| x < n ==> p.contains(x),
{
    assert forall|a: int, b: int| 0 <= a < b < n implies p[a] != p[b] by {
        ahead_orders(before, n, p[a] as int, p[b] as int, p[a] as int);
    }
    assert forall|x: usize| x < n implies p.contains(x) by {
        let all = Set::new(|y: usize| y < n);
        if !p.contains(x) {
            let q = p.push(x);
            assert(q.no_duplicates());
            q.unique_seq_to_set();
            let m = q.map_values(|y: usize| y as int);
            assert(m.no_duplicates());
            m.unique_seq_to_set();
            vstd::set_lib::lemma_int_range(0, n);
            assert(m.to_set().subset_of(vstd::set_lib::set_int_range(0, n)));
            vstd::set_lib::lemma_len_subset(m.to_set(), vstd::set_lib::set_int_range(0, n));
        }
    }
}

/// There is one stable order: two lists of positions in order are one list.
pub proof fn stable_order_is_unique(
    before: spec_fn(int, int) -> bool,
    n: int,
    p: Seq<usize>,
    q: Seq<usize>,
)
    requires
        n >= 0,
        orders(before, n),
        stable_order(before, n, p),
        stable_order(before, n, q),
    ensures
        p == q,
{
    stable_order_is_permutation(before, n, p);
    stable_order_is_permutation(before, n, q);
    assert forall|k: int| 0 <= k < n implies p[k] == q[k] by {
        same_at(before, n, p, q, k);
    }
    assert(p =~= q);
}

proof fn same_at(
    before: spec_fn(int, int) -> bool,
    n: int,
    p: Seq<usize>,
    q: Seq<usize>,
    k: int,
)
    requires
        orders(before, n),
        stable_order(before, n, p),
        stable_order(before, n, q),
        p.no_duplicates(),
        q.no_duplicates(),
        forall|x: usize| x < n ==> p.contains(x),
        forall|x: usize| x < n ==> q.contains(x),
        0 <= k < n,
    ensures
        p[k] == q[k],
    decreases k,
{
    assert forall|i: int| 0 <= i < k implies p[i] == q[i] by {
        same_at(before, n, p, q, i);
    }
    if p[k] != q[k] {
        assert(q.contains(p[k]));
        assert(p.contains(q[k]));
        let a = choose|a: int| 0 <= a < q.len() && q[a] == p[k];
        let b = choose|b: int| 0 <= b < p.len() && p[b] == q[k];
        if a < k {
            assert(p[a] == q[a]);
        }
        if b < k {
            assert(p[b] == q[b]);
        }
        assert(a > k && b > k);
        assert(ahead(before, q[k] as int, q[a] as int));
        assert(ahead(before, p[k] as int, p[b] as int));
        ahead_orders(before, n, p[k] as int, q[k] as int, p[k] as int);
    }
}

/// The positions `lo..hi` in order.
spec fn run(before: spec_fn(int, int) -> bool, lo: int, hi: int, p: Seq<usize>) -> bool {
    &&& p.len() == hi - lo
    &&& forall|a: int| 0 <= a < p.len() ==> lo <= #[trigger] p[a] < hi
    &&& forall|a: int, b: int|
        0 <= a < b < p.len() ==> ahead(before, #[trigger] p[a] as int, #[trigger] p[b] as int)
}

fn merged<F: Fn(usize, usize) -> bool>(
    left: Vec<usize>,
    right: Vec<usize>,
    lo: usize,
    mid: usize,
    hi: usize,
    n: usize,
    less: &F,
    Ghost(before): Ghost<spec_fn(int, int) -> bool>,
) -> (r: Vec<usize>)
    requires
        lo <= mid <= hi <= n,
        orders(before, n as int),
        run(before, lo as int, mid as int, left@),
        run(before, mid as int, hi as int, right@),
        forall|i: usize, j: usize| i < n && j < n ==> call_requires(*less, (i, j)),
        forall|i: usize, j: usize, b: bool|
            i < n && j < n && #[trigger] call_ensures(*less, (i, j), b) ==> b == before(
                i as int,
                j as int,
            ),
    ensures
        run(before, lo as int, hi as int, r@),
{
    let mut out: Vec<usize> = Vec::new();
    let mut i: usize = 0;
    let mut j: usize = 0;
    while i < left.len() || j < right.len()
        invariant
            lo <= mid <= hi <= n,
            orders(before, n as int),
            run(before, lo as int, mid as int, left@),
            run(before, mid as int, hi as int, right@),
            forall|i: usize, j: usize| i < n && j < n ==> call_requires(*less, (i, j)),
            forall|i: usize, j: usize, b: bool|
                i < n && j < n && #[trigger] call_ensures(*less, (i, j), b) ==> b == before(
                    i as int,
                    j as int,
                ),
            i <= left@.len(),
            j <= right@.len(),
            out@.len() == i + j,
            forall|a: int| 0 <= a < out@.len() ==> lo <= #[trigger] out@[a] < hi,
            forall|a: int, b: int|
                0 <= a < b < out@.len() ==> ahead(
                    before,
                    #[trigger] out@[a] as int,
                    #[trigger] out@[b] as int,
                ),
            forall|a: int, b: int|
                0 <= a < out@.len() && i <= b < left@.len() ==> ahead(
                    before,
                    #[trigger] out@[a] as int,
                    #[trigger] left@[b] as int,
                ),
            forall|a: int, b: int|
                0 <= a < out@.len() && j <= b < right@.len() ==> ahead(
                    before,
                    #[trigger] out@[a] as int,
                    #[trigger] right@[b] as int,
                ),
        decreases left@.len() - i + right@.len() - j,
    {
        let from_left = if i >= left.len() {
            false
        } else if j >= right.len() {
            true
        } else {
            !less(right[j], left[i])
        };
        if from_left {
            let x: usize = left[i];
            proof {
                if j < right@.len() {
                    assert(ahead(before, x as int, right@[j as int] as int));
                    assert forall|b: int| j <= b < right@.len() implies ahead(
                        before,
                        x as int,
                        #[trigger] right@[b] as int,
                    ) by {
                        if b > j {
                            assert(ahead(before, right@[j as int] as int, right@[b] as int));
                            ahead_orders(
                                before,
                                n as int,
                                x as int,
                                right@[j as int] as int,
                                right@[b] as int,
                            );
                        }
                    }
                }
            }
            out.push(x);
            i += 1;
        } else {
            let x: usize = right[j];
            proof {
                if i < left@.len() {
                    assert(ahead(before, x as int, left@[i as int] as int));
                    assert forall|b: int| i <= b < left@.len() implies ahead(
                        before,
                        x as int,
                        #[trigger] left@[b] as int,
                    ) by {
                        if b > i {
                            assert(ahead(before, left@[i as int] as int, left@[b] as int));
                            ahead_orders(
                                before,
                                n as int,
                                x as int,
                                left@[i as int] as int,
                                left@[b] as int,
                            );
                        }
                    }
                }
            }
            out.push(x);
            j += 1;
        }
    }
    out
}

fn sorted_run<F: Fn(usize, usize) -> bool>(
    lo: usize,
    hi: usize,
    n: usize,
    less: &F,
    Ghost(before): Ghost<spec_fn(int, int) -> bool>,
) -> (r: Vec<usize>)
    requires
        lo <= hi <= n,
        orders(before, n as int),
        forall|i: usize, j: usize| i < n && j < n ==> call_requires(*less, (i, j)),
        forall|i: usize, j: usize, b: bool|
            i < n && j < n && #[trigger] call_ensures(*less, (i, j), b) ==> b == before(
                i as int,
                j as int,
            ),
    ensures
        run(before, lo as int, hi as int, r@),
    decreases hi - lo,
{
    if hi - lo < 2 {
        let mut r: Vec<usize> = Vec::new();
        if lo < hi {
            r.push(lo);
        }
        r
    } else {
        let mid: usize = lo + (hi - lo) / 2;
        let left = sorted_run(lo, mid, n, less, Ghost(before));
        let right = sorted_run(mid, hi, n, less, Ghost(before));
        merged(left, right, lo, mid, hi, n, less, Ghost(before))
    }
}

/// The positions below `n`, sorted by `less`; ties stay as they stand.
pub(crate) fn sort_positions<F: Fn(usize, usize) -> bool>(
    n: usize,
    less: F,
    Ghost(before): Ghost<spec_fn(int, int) -> bool>,
) -> (r: Vec<usize>)
    requires
        orders(before, n as int),
        forall|i: usize, j: usize| i < n && j < n ==> call_requires(less, (i, j)),
        forall|i: usize, j: usize, b: bool|
            i < n && j < n && #[trigger] call_ensures(less, (i, j), b) ==> b == before(
                i as int,
                j as int,
            ),
    ensures
        stable_order(before, n as int, r@),
{
    sorted_run(0, n, n, &less, Ghost(before))
}

/// The items of `v`, each moved to its place in the order `p`.
pub(crate) fn reorder<T>(v: Vec<T>, p: &Vec<usize>) -> (r: Vec<T>)
    requires
        p@.len() == v@.len(),
        p@.no_duplicates(),
        forall|a: int| 0 <= a < p@.len() ==> #[trigger] p@[a] < v@.len(),
    ensures
        r@ == listed(v@, p@),
{
    let ghost items = v@;
    let mut v = v;
    let mut back: Vec<Option<T>> = Vec::new();
    let n: usize = v.len();
    while v.len() > 0
        invariant
            n == items.len(),
            v@.len() + back@.len() == n,
            v@ == items.take(v@.len() as int),
            forall|k: int|
                0 <= k < back@.len() ==> #[trigger] back@[k] == Some(items[n - 1 - k]),
        decreases v@.len(),
    {
        let x = v.pop();
        back.push(x);
    }
    let mut r: Vec<T> = Vec::new();
    let mut i: usize = 0;
    while i < p.len()
        invariant
            i <= p@.len(),
            p@.len() == n,
            n == items.len(),
            p@.no_duplicates(),
            forall|a: int| 0 <= a < p@.len() ==> #[trigger] p@[a] < n,
            back@.len() == n,
            r@.len() == i,
            forall|a: int| 0 <= a < i ==> #[trigger] r@[a] == items[p@[a] as int],
            forall|a: int|
                i <= a < n ==> back@[n - 1 - #[trigger] p@[a]] == Some(items[p@[a] as int]),
        decreases p@.len() - i,
    {
        let at: usize = n - 1 - p[i];
        assert(back@[n - 1 - p@[i as int]] == Some(items[p@[i as int] as int]));
        let x = back[at].take();
        match x {
            Some(x) => {
                r.push(x);
            },
            None => {},
        }
        i += 1;
    }
    assert(r@ =~= listed(items, p@));
    r
}

/// `r` lists the numbers of `s`, each once, in ascending order.
pub open spec fn ascending_set(s: Seq<u32>, r: Seq<u32>) -> bool {
    &&& forall|a: int, b: int| 0 <= a < b < r.len() ==> #[trigger] r[a] < #[trigger] r[b]
    &&& forall|x: u32| #[trigger] r.contains(x) <==> s.contains(x)
}

/// The numbers of `v` in ascending order, each once.
pub fn sort_dedup(v: &Vec<u32>) -> (r: Vec<u32>)
    ensures
        ascending_set(v@, r@),
{
    let ghost before = |i: int, j: int| v@[i] < v@[j];
    let less = |i: usize, j: usize| -> (b: bool)
        requires
            i < v@.len() && j < v@.len(),
        ensures
            b == (v@[i as int] < v@[j as int]),
        { v[i] < v[j] };
    let p = sort_positions(v.len(), less, Ghost(before));
    proof {
        stable_order_is_permutation(before, v@.len() as int, p@);
    }
    let mut r: Vec<u32> = Vec::new();
    let mut i: usize = 0;
    while i < p.len()
        invariant
            i <= p@.len(),
            before == (|i: int, j: int| v@[i] < v@[j]),
            stable_order(before, v@.len() as int, p@),
            forall|a: int, b: int| 0 <= a < b < r@.len() ==> #[trigger] r@[a] < #[trigger] r@[b],
            forall|a: int| 0 <= a < r@.len() ==> v@.contains(#[trigger] r@[a]),
            forall|a: int| 0 <= a < i ==> r@.contains(v@[#[trigger] p@[a] as int]),
            i == 0 ==> r@.len() == 0,
            i > 0 ==> r@.len() > 0 && r@.last() == v@[p@[i - 1] as int],
        decreases p@.len() - i,
    {
        let x: u32 = v[p[i]];
        let ghost r0 = r@;
        proof {
            if i > 0 {
                assert(ahead(before, p@[i - 1] as int, p@[i as int] as int));
                assert(v@[p@[i - 1] as int] <= x);
            }
        }
        if r.len() == 0 || r[r.len() - 1] != x {
            r.push(x);
            assert(r@[r0.len() as int] == x);
            assert forall|a: int| 0 <= a < i implies r@.contains(v@[#[trigger] p@[a] as int]) by {
                let y = v@[p@[a] as int];
                assert(r0.contains(y));
                let k = choose|k: int| 0 <= k < r0.len() && r0[k] == y;
                assert(r@[k] == y);
            }
        }
        assert(r@.last() == x);
        i += 1;
    }
    assert forall|x: u32| #[trigger] r@.contains(x) <==> v@.contains(x) by {
        if v@.contains(x) {
            let k = choose|k: int| 0 <= k < v@.len() && v@[k] == x;
            assert(p@.contains(k as usize));
            let a = choose|a: int| 0 <= a < p@.len() && p@[a] == k as usize;
            assert(r@.contains(v@[p@[a] as int]));
        }
    }
    r
}

/// `r` lists the numbers of `s`, each once, in ascending order.
pub open spec fn ascending_wide(s: Seq<u64>, r: Seq<u64>) -> bool {
    &&& forall|a: int, b: int| 0 <= a < b < r.len() ==> #[trigger] r[a] < #[trigger] r[b]
    &&& forall|x: u64| #[trigger] r.contains(x) <==> s.contains(x)
}

/// The numbers of `v` in ascending order, each once.
pub fn sort_dedup_wide(v: &Vec<u64>) -> (r: Vec<u64>)
    ensures
        ascending_wide(v@, r@),
{
    let ghost before = |i: int, j: int| v@[i] < v@[j];
    let less = |i: usize, j: usize| -> (b: bool)
        requires
            i < v@.len() && j < v@.len(),
        ensures
            b == (v@[i as int] < v@[j as int]),
        { v[i] < v[j] };
    let p = sort_positions(v.len(), less, Ghost(before));
    proof {
        stable_order_is_permutation(before, v@.len() as int, p@);
    }
    let mut r: Vec<u64> = Vec::new();
    let mut i: usize = 0;
    while i < p.len()
        invariant
            i <= p@.len(),
            before == (|i: int, j: int| v@[i] < v@[j]),
            stable_order(before, v@.len() as int, p@),
            forall|a: int, b: int| 0 <= a < b < r@.len() ==> #[trigger] r@[a] < #[trigger] r@[b],
            forall|a: int| 0 <= a < r@.len() ==> v@.contains(#[trigger] r@[a]),
            forall|a: int| 0 <= a < i ==> r@.contains(v@[#[trigger] p@[a] as int]),
            i == 0 ==> r@.len() == 0,
            i > 0 ==> r@.len() > 0 && r@.last() == v@[p@[i - 1] as int],
        decreases p@.len() - i,
    {
        let x: u64 = v[p[i]];
        let ghost r0 = r@;
        proof {
            if i > 0 {
                assert(ahead(before, p@[i - 1] as int, p@[i as int] as int));
                assert(v@[p@[i - 1] as int] <= x);
            }
        }
        if r.len() == 0 || r[r.len() - 1] != x {
            r.push(x);
            assert(r@[r0.len() as int] == x);
            assert forall|a: int| 0 <= a < i implies r@.contains(v@[#[trigger] p@[a] as int]) by {
                let y = v@[p@[a] as int];
                assert(r0.contains(y));
                let k = choose|k: int| 0 <= k < r0.len() && r0[k] == y;
                assert(r@[k] == y);
            }
        }
        assert(r@.last() == x);
        i += 1;
    }
    assert forall|x: u64| #[trigger] r@.contains(x) <==> v@.contains(x) by {
        if v@.contains(x) {
            let k = choose|k: int| 0 <= k < v@.len() && v@[k] == x;
            assert(p@.contains(k as usize));
            let a = choose|a: int| 0 <= a < p@.len() && p@[a] == k as usize;
            assert(r@.contains(v@[p@[a] as int]));
        }
    }
    r
}

} // verus!

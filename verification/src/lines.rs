//! What the lines of a report say.
use vstd::prelude::*;

use crate::graph::KnowledgeGraph;
use crate::report::{category_line, grouped, left, right, size_order, three_digits, top_lines};
use crate::text::{decimal, digit};
use crate::words::{decimals_read_back, number};

verus! {

/// A text without its commas.
pub open spec fn without_commas(s: Seq<char>) -> Seq<char>
    decreases s.len(),
{
    if s.len() == 0 {
        Seq::empty()
    } else if s.last() == ',' {
        without_commas(s.drop_last())
    } else {
        without_commas(s.drop_last()).push(s.last())
    }
}

proof fn commas_go_apart(a: Seq<char>, b: Seq<char>)
    ensures
        without_commas(a + b) == without_commas(a) + without_commas(b),
    decreases b.len(),
{
    if b.len() == 0 {
        assert(a + b =~= a);
        assert(without_commas(a) + without_commas(b) =~= without_commas(a));
    } else {
        assert((a + b).drop_last() =~= a + b.drop_last());
        assert((a + b).last() == b.last());
        commas_go_apart(a, b.drop_last());
        assert(without_commas(a + b) =~= without_commas(a) + without_commas(b));
    }
}

proof fn no_commas(s: Seq<char>)
    requires
        forall|i: int| 0 <= i < s.len() ==> '0' <= #[trigger] s[i] <= '9',
    ensures
        without_commas(s) == s,
    decreases s.len(),
{
    if s.len() > 0 {
        assert('0' <= s[s.len() - 1] <= '9');
        let r = s.drop_last();
        assert forall|i: int| 0 <= i < r.len() implies '0' <= #[trigger] r[i] <= '9' by {
            assert('0' <= s[i] <= '9');
        }
        no_commas(r);
        assert(r.push(s.last()) =~= s);
    } else {
        assert(without_commas(s) =~= s);
    }
}

proof fn digit_added(s: Seq<char>, d: nat)
    requires
        d < 10,
    ensures
        number(s.push(digit(d))) == 10 * number(s) + d,
{
    assert(s.push(digit(d)).drop_last() =~= s);
}

/// A number in groups of three digits is, without the commas, read back as the number.
pub proof fn groups_read_back(n: nat)
    ensures
        number(without_commas(grouped(n))) == n,
    decreases n,
{
    if n < 1000 {
        decimals_read_back(n);
        no_commas(decimal(n));
    } else {
        let h = n / 1000;
        let k = n % 1000;
        groups_read_back(h);
        let t = three_digits(k);
        let a = grouped(h);
        reveal_strlit(",");
        commas_go_apart(a + ","@, t);
        commas_go_apart(a, ","@);
        assert(","@.drop_last() =~= Seq::<char>::empty());
        assert(","@.last() == ',');
        assert(without_commas(Seq::<char>::empty()) =~= Seq::<char>::empty());
        assert(","@.len() == 1);
        assert(without_commas(","@) == without_commas(","@.drop_last()));
        let (x, y, z) = (k / 100 % 10, k / 10 % 10, k % 10);
        assert(t[0] == digit(x) && t[1] == digit(y) && t[2] == digit(z));
        assert('0' <= digit(x) <= '9' && '0' <= digit(y) <= '9' && '0' <= digit(z) <= '9');
        no_commas(t);
        let s = without_commas(a);
        assert(without_commas(grouped(n)) =~= s.push(digit(x)).push(digit(y)).push(digit(z)));
        digit_added(s, x);
        digit_added(s.push(digit(x)), y);
        digit_added(s.push(digit(x)).push(digit(y)), z);
        assert(100 * x + 10 * y + z == k);
    }
}

/// A text that is set to a width stays as it is, with blanks beside it where it is
/// shorter.
pub proof fn widths_are_met(text: Seq<char>, width: nat)
    ensures
        left(text, width).len() >= width && right(text, width).len() >= width,
        left(text, width).take(text.len() as int) == text,
        right(text, width).skip(right(text, width).len() - text.len()) == text,
        text.len() >= width ==> left(text, width) == text && right(text, width) == text,
{
    assert(left(text, width).take(text.len() as int) =~= text);
    assert(right(text, width).skip(right(text, width).len() - text.len()) =~= text);
    if text.len() >= width {
        assert(left(text, width) =~= text && right(text, width) =~= text);
    }
}

/// The categories of a report are those with the most recipes, each once, the greatest
/// first; as many as are asked for, or all there are.
pub proof fn greatest_categories_first(g: KnowledgeGraph, top: nat, lines: Seq<Seq<char>>) -> (at: Seq<usize>)
    requires
        top_lines(g, top, lines),
        g.categories@.len() <= usize::MAX,
    ensures
        at.len() == lines.len(),
        lines.len() == if g.categories@.len() < top {
            g.categories@.len()
        } else {
            top
        },
        at.no_duplicates(),
        forall|i: int|
            0 <= i < at.len() ==> #[trigger] at[i] < g.categories@.len() && lines[i] == category_line(
                g,
                at[i] as int,
            ),
        forall|i: int, j: int|
            0 <= i < j < at.len() ==> g.categories@[#[trigger] at[i] as int].recipe_count
                >= g.categories@[#[trigger] at[j] as int].recipe_count,
        forall|c: int, i: int|
            #![trigger g.categories@[c], at[i]]
            0 <= c < g.categories@.len() && !at.contains(c as usize) && 0 <= i < at.len()
                ==> g.categories@[at[i] as int].recipe_count >= g.categories@[c].recipe_count,
{
    let before = size_order(g);
    let n = g.categories@.len() as int;
    let p = choose|p: Seq<usize>| #[trigger]
        crate::order::stable_order(before, n, p) && lines == Seq::new(
            if p.len() < top {
                p.len()
            } else {
                top
            },
            |i: int| category_line(g, p[i] as int),
        );
    assert(crate::order::orders(before, n));
    crate::order::stable_order_is_permutation(before, n, p);
    let at = p.take(lines.len() as int);
    assert forall|i: int, j: int| 0 <= i < j < p.len() implies g.categories@[#[trigger] p[i] as int].recipe_count
        >= g.categories@[#[trigger] p[j] as int].recipe_count by {
        assert(crate::order::ahead(before, p[i] as int, p[j] as int));
        assert(before(p[i] as int, p[j] as int) || !before(p[j] as int, p[i] as int));
    }
    assert forall|c: int, i: int|
        #![trigger g.categories@[c], at[i]]
        0 <= c < n && !at.contains(c as usize) && 0 <= i < at.len() implies g.categories@[at[i] as int].recipe_count
        >= g.categories@[c].recipe_count by {
        assert(p.contains(c as usize));
        let j = choose|j: int| 0 <= j < p.len() && p[j] == c as usize;
        if j < at.len() {
            assert(at[j] == c as usize);
        }
        assert(at[i] == p[i]);
        assert(g.categories@[p[i] as int].recipe_count >= g.categories@[p[j] as int].recipe_count);
    }
    assert forall|i: int, j: int| 0 <= i < j < at.len() implies g.categories@[#[trigger] at[i] as int].recipe_count
        >= g.categories@[#[trigger] at[j] as int].recipe_count by {
        assert(at[i] == p[i] && at[j] == p[j]);
    }
    at
}

} // verus!

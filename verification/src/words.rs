//! What texts say.
use vstd::prelude::*;

use crate::text::{after_colon, decimal, digit, text_before, trimmed, white_space};

verus! {

/// The number that digits stand for.
pub open spec fn number(s: Seq<char>) -> nat
    decreases s.len(),
{
    if s.len() == 0 {
        0
    } else {
        10 * number(s.drop_last()) + (s.last() as u32 - '0' as u32) as nat
    }
}

/// A number in digits is read back as the number. Only digits are used, and the
/// first is no zero unless it is the only one.
pub proof fn decimals_read_back(n: nat)
    ensures
        number(decimal(n)) == n,
        decimal(n).len() > 0,
        forall|i: int|
            0 <= i < decimal(n).len() ==> '0' <= #[trigger] decimal(n)[i] && decimal(n)[i] <= '9',
        n > 0 ==> decimal(n)[0] != '0',
    decreases n,
{
    if n < 10 {
        assert(decimal(n).drop_last() =~= Seq::<char>::empty());
        assert(decimal(n).last() == digit(n));
        assert(number(Seq::<char>::empty()) == 0);
        assert(number(decimal(n)) == 10 * number(decimal(n).drop_last()) + (digit(n) as u32
            - '0' as u32) as nat);
        digits_stand(n);
    } else {
        decimals_read_back(n / 10);
        assert(decimal(n).drop_last() =~= decimal(n / 10));
        digits_stand(n % 10);
        assert(decimal(n).last() == digit(n % 10));
        assert(number(decimal(n)) == 10 * number(decimal(n / 10)) + n % 10);
    }
}

proof fn digits_stand(d: nat)
    requires
        d < 10,
    ensures
        '0' <= digit(d) <= '9',
        digit(d) as u32 - '0' as u32 == d,
        d > 0 ==> digit(d) != '0',
{
}

/// Different numbers have different digits.
pub proof fn decimals_differ(a: nat, b: nat)
    requires
        decimal(a) == decimal(b),
    ensures
        a == b,
{
    decimals_read_back(a);
    decimals_read_back(b);
}

/// The first letter in which two texts differ tells which comes first; where one
/// text goes on from another, the shorter comes first.
pub proof fn first_difference_decides(a: Seq<char>, b: Seq<char>, k: int)
    requires
        0 <= k <= a.len(),
        k < b.len(),
        forall|i: int| 0 <= i < k ==> #[trigger] a[i] == b[i],
        k < a.len() ==> a[k] != b[k],
    ensures
        text_before(a, b) <==> k == a.len() || a[k] < b[k],
    decreases k,
{
    if k > 0 {
        let c = a.drop_first();
        let d = b.drop_first();
        assert(a[0] == b[0]);
        assert forall|i: int| 0 <= i < k - 1 implies #[trigger] c[i] == d[i] by {
            assert(a[i + 1] == b[i + 1]);
        }
        if k < a.len() {
            assert(c[k - 1] == a[k] && d[k - 1] == b[k]);
        }
        first_difference_decides(c, d, k - 1);
    }
}

/// A text does not come before what it goes on from, nor before itself.
pub proof fn longer_is_not_before(a: Seq<char>, b: Seq<char>)
    requires
        b.len() <= a.len(),
        forall|i: int| 0 <= i < b.len() ==> #[trigger] a[i] == b[i],
    ensures
        !text_before(a, b),
    decreases b.len(),
{
    if b.len() > 0 {
        let c = a.drop_first();
        let d = b.drop_first();
        assert(a[0] == b[0]);
        assert forall|i: int| 0 <= i < d.len() implies #[trigger] c[i] == d[i] by {
            assert(a[i + 1] == b[i + 1]);
        }
        longer_is_not_before(c, d);
    }
}

/// Trimming takes white space off both ends, and nothing else.
pub proof fn trimming_takes_ends(s: Seq<char>) -> (from: int)
    ensures
        ({
            let t = trimmed(s);
            &&& 0 <= from && from + t.len() <= s.len()
            &&& t == s.subrange(from, from + t.len())
            &&& forall|i: int|
                (0 <= i < from || from + t.len() <= i < s.len()) ==> white_space(#[trigger] s[i])
            &&& t.len() > 0 ==> !white_space(t[0]) && !white_space(t[t.len() - 1])
        }),
    decreases s.len(),
{
    if s.len() > 0 && white_space(s.first()) {
        let at = trimming_takes_ends(s.drop_first());
        let t = trimmed(s);
        assert(s.drop_first().subrange(at, at + t.len()) =~= s.subrange(at + 1, at + 1 + t.len()));
        assert forall|i: int|
            (0 <= i < at + 1 || at + 1 + t.len() <= i < s.len()) implies white_space(
            #[trigger] s[i],
        ) by {
            if i > 0 {
                assert(s.drop_first()[i - 1] == s[i]);
            }
        }
        at + 1
    } else if s.len() > 0 && white_space(s.last()) {
        let at = trimming_takes_ends(s.drop_last());
        let t = trimmed(s);
        assert(s.drop_last().subrange(at, at + t.len()) =~= s.subrange(at, at + t.len()));
        assert forall|i: int|
            (0 <= i < at || at + t.len() <= i < s.len()) implies white_space(#[trigger] s[i]) by {
            if i < s.len() - 1 {
                assert(s.drop_last()[i] == s[i]);
            }
        }
        at
    } else {
        assert(s.subrange(0, s.len() as int) =~= s);
        0
    }
}

/// What comes after the last colon: the end of the text that holds no colon, up to a
/// colon or the whole of it.
pub proof fn ends_at_the_colon(s: Seq<char>)
    ensures
        ({
            let t = after_colon(s);
            let from = s.len() - t.len();
            &&& t.len() <= s.len()
            &&& t == s.subrange(from, s.len() as int)
            &&& !t.contains(':')
            &&& from > 0 ==> s[from - 1] == ':'
        }),
    decreases s.len(),
{
    let t = after_colon(s);
    if s.len() > 0 && s.last() != ':' {
        let r = s.drop_last();
        ends_at_the_colon(r);
        let u = after_colon(r);
        let from = s.len() - t.len();
        assert(t =~= s.subrange(from, s.len() as int)) by {
            assert forall|i: int| 0 <= i < t.len() implies t[i] == s[from + i] by {
                if i < u.len() {
                    assert(u[i] == r.subrange(from, r.len() as int)[i]);
                }
            }
        }
        if t.contains(':') {
            let i = choose|i: int| 0 <= i < t.len() && t[i] == ':';
            assert(i < u.len() ==> u[i] == ':');
            assert(u.contains(':'));
        }
    } else {
        assert(t =~= s.subrange(s.len() as int, s.len() as int));
    }
}

proof fn zeros_add_nothing(k: nat, s: Seq<char>)
    ensures
        number(Seq::new(k, |i: int| '0') + s) == number(s),
    decreases k + s.len(),
{
    let zeros = Seq::new(k, |i: int| '0');
    if s.len() > 0 {
        assert((zeros + s).drop_last() =~= zeros + s.drop_last());
        zeros_add_nothing(k, s.drop_last());
    } else if k > 0 {
        let fewer = Seq::new((k - 1) as nat, |i: int| '0');
        assert((zeros + s).drop_last() =~= fewer + s);
        zeros_add_nothing((k - 1) as nat, s);
    }
}

/// A number with zeros in front is read back as the number, and has the width that is
/// asked for, or more where it needs it.
pub proof fn padding_reads_back(n: nat, width: nat)
    ensures
        number(crate::record::padded(n, width)) == n,
        crate::record::padded(n, width).len() >= width,
        crate::record::padded(n, width).len() == width || crate::record::padded(n, width) == decimal(
            n,
        ),
{
    decimals_read_back(n);
    let d = decimal(n);
    if d.len() < width {
        zeros_add_nothing((width - d.len()) as nat, d);
    }
}

} // verus!

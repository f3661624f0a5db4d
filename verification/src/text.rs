//! Text helpers. A string is viewed as the sequence of its characters.
use vstd::prelude::*;
use vstd::string::StringExecFns;

verus! {

/// `String::push` appends one character.
pub assume_specification[ String::push ](s: &mut String, c: char)
    ensures
        final(s)@ == old(s)@.push(c),
;

/// The characters that Unicode counts as white space: tabs, ends of lines and
/// pages, and spaces of whatever width.
pub open spec fn white_space(c: char) -> bool {
    let n = c as int;
    ||| 0x9 <= n <= 0xd
    ||| n == 0x20
    ||| n == 0x85
    ||| n == 0xa0
    ||| n == 0x1680
    ||| 0x2000 <= n <= 0x200a
    ||| n == 0x2028
    ||| n == 0x2029
    ||| n == 0x202f
    ||| n == 0x205f
    ||| n == 0x3000
}

/// `char::is_whitespace` tells whether a character has the Unicode property
/// `White_Space`.
pub assume_specification[ char::is_whitespace ](c: char) -> (r: bool)
    ensures
        r == white_space(c),
;

/// A string in lower case.
pub uninterp spec fn lowercase(s: Seq<char>) -> Seq<char>;

/// `str::to_lowercase` maps a string to its lower case, whatever the locale.
#[verifier::external_body]
pub(crate) fn to_lowercase(s: &str) -> (r: String)
    ensures
        r@ == lowercase(s@),
{
    s.to_lowercase()
}

/// The characters of a string.
pub fn chars_of(s: &str) -> (r: Vec<char>)
    ensures
        r@ == s@,
{
    let mut r: Vec<char> = Vec::new();
    for c in it: s.chars()
        invariant
            r@ == it.seq().take(it.index() as int),
            it.seq() == s@,
    {
        r.push(c);
    }
    r
}

/// The string of `cs[from..to]`.
pub fn string_of(cs: &Vec<char>, from: usize, to: usize) -> (r: String)
    requires
        from <= to <= cs@.len(),
    ensures
        r@ == cs@.subrange(from as int, to as int),
{
    let mut r = String::new();
    let mut i: usize = from;
    while i < to
        invariant
            from <= i <= to <= cs@.len(),
            r@ == cs@.subrange(from as int, i as int),
        decreases to - i,
    {
        r.push(cs[i]);
        i += 1;
    }
    r
}

/// The string with white space taken off both ends.
pub open spec fn trimmed(s: Seq<char>) -> Seq<char>
    decreases s.len(),
{
    if s.len() > 0 && white_space(s.first()) {
        trimmed(s.drop_first())
    } else if s.len() > 0 && white_space(s.last()) {
        trimmed(s.drop_last())
    } else {
        s
    }
}

/// Takes white space off both ends.
pub fn trim(s: &str) -> (r: String)
    ensures
        r@ == trimmed(s@),
{
    let cs = chars_of(s);
    let mut from: usize = 0;
    let mut to: usize = cs.len();
    assert(cs@.subrange(0, to as int) =~= s@);
    while from < to && cs[from].is_whitespace()
        invariant
            from <= to == cs@.len(),
            trimmed(s@) == trimmed(cs@.subrange(from as int, to as int)),
        decreases to - from,
    {
        assert(cs@.subrange(from as int, to as int).drop_first() =~= cs@.subrange(
            from + 1,
            to as int,
        ));
        from += 1;
    }
    while from < to && cs[to - 1].is_whitespace()
        invariant
            from <= to <= cs@.len(),
            from < to ==> !white_space(cs@[from as int]),
            trimmed(s@) == trimmed(cs@.subrange(from as int, to as int)),
        decreases to - from,
    {
        assert(cs@.subrange(from as int, to as int).drop_last() =~= cs@.subrange(
            from as int,
            to - 1,
        ));
        to -= 1;
    }
    string_of(&cs, from, to)
}

/// Whether two strings hold the same characters.
pub fn same(a: &str, b: &str) -> (r: bool)
    ensures
        r == (a@ == b@),
{
    let ac = chars_of(a);
    let bc = chars_of(b);
    if ac.len() != bc.len() {
        return false;
    }
    let mut i: usize = 0;
    while i < ac.len()
        invariant
            i <= ac@.len(),
            ac@ == a@,
            bc@ == b@,
            ac@.len() == bc@.len(),
            forall|k: int| 0 <= k < i ==> a@[k] == b@[k],
        decreases ac@.len() - i,
    {
        if ac[i] != bc[i] {
            return false;
        }
        i += 1;
    }
    assert(a@ =~= b@);
    true
}

/// `part` occurs in `s` at position `i`.
pub open spec fn occurs_at(s: Seq<char>, part: Seq<char>, i: int) -> bool {
    0 <= i && i + part.len() <= s.len() && s.subrange(i, i + part.len()) == part
}

/// `part` occurs somewhere in `s`.
pub open spec fn occurs(s: Seq<char>, part: Seq<char>) -> bool {
    exists|i: int| #[trigger] occurs_at(s, part, i)
}

/// Whether `part` occurs in `s` at position `i`.
fn matches_at(s: &Vec<char>, part: &Vec<char>, i: usize) -> (r: bool)
    requires
        i <= s@.len(),
    ensures
        r == occurs_at(s@, part@, i as int),
{
    if part.len() > s.len() - i {
        return false;
    }
    let mut k: usize = 0;
    while k < part.len()
        invariant
            k <= part@.len(),
            i + part@.len() <= s@.len() <= usize::MAX,
            forall|j: int| 0 <= j < k ==> s@[i + j] == part@[j],
        decreases part@.len() - k,
    {
        if s[i + k] != part[k] {
            assert(s@.subrange(i as int, i + part@.len())[k as int] == s@[i + k]);
            return false;
        }
        k += 1;
    }
    assert(s@.subrange(i as int, i + part@.len()) =~= part@);
    true
}

/// Whether `part` occurs in `s`.
pub fn contains(s: &str, part: &str) -> (r: bool)
    ensures
        r == occurs(s@, part@),
{
    let sc = chars_of(s);
    let pc = chars_of(part);
    let mut i: usize = 0;
    while i < sc.len()
        invariant
            i <= sc@.len(),
            sc@ == s@,
            pc@ == part@,
            forall|j: int| 0 <= j < i ==> !occurs_at(s@, part@, j),
        decreases sc@.len() - i,
    {
        if matches_at(&sc, &pc, i) {
            return true;
        }
        i += 1;
    }
    matches_at(&sc, &pc, i)
}

/// Whether `s` starts with `part`.
pub fn starts_with(s: &str, part: &str) -> (r: bool)
    ensures
        r == occurs_at(s@, part@, 0),
{
    let sc = chars_of(s);
    let pc = chars_of(part);
    matches_at(&sc, &pc, 0)
}

/// Whether `s` ends with `part`.
pub fn ends_with(s: &str, part: &str) -> (r: bool)
    ensures
        r == occurs_at(s@, part@, s@.len() - part@.len()),
{
    let sc = chars_of(s);
    let pc = chars_of(part);
    if pc.len() > sc.len() {
        return false;
    }
    matches_at(&sc, &pc, sc.len() - pc.len())
}

/// What follows the last colon; the whole string when there is none.
pub open spec fn after_colon(s: Seq<char>) -> Seq<char>
    decreases s.len(),
{
    if s.len() == 0 || s.last() == ':' {
        Seq::empty()
    } else {
        after_colon(s.drop_last()).push(s.last())
    }
}

/// The name without its namespace.
pub fn short_name(s: &str) -> (r: String)
    ensures
        r@ == after_colon(s@),
{
    let cs = chars_of(s);
    let mut from: usize = cs.len();
    assert(cs@.take(from as int) =~= s@);
    assert(cs@.subrange(from as int, cs@.len() as int) =~= Seq::<char>::empty());
    assert(after_colon(s@) =~= after_colon(cs@.take(from as int)) + cs@.subrange(
        from as int,
        cs@.len() as int,
    ));
    while from > 0 && cs[from - 1] != ':'
        invariant
            from <= cs@.len(),
            after_colon(s@) =~= after_colon(cs@.take(from as int)) + cs@.subrange(
                from as int,
                cs@.len() as int,
            ),
        decreases from,
    {
        assert(cs@.take(from as int).drop_last() =~= cs@.take(from - 1));
        from -= 1;
    }
    assert(after_colon(cs@.take(from as int)) =~= Seq::<char>::empty());
    string_of(&cs, from, cs.len())
}

/// The string with each `_` turned into a blank.
pub open spec fn spaced(s: Seq<char>) -> Seq<char> {
    s.map_values(|c: char| if c == '_' { ' ' } else { c })
}

/// Turns each `_` into a blank.
pub fn underscores_to_blanks(s: &str) -> (r: String)
    ensures
        r@ == spaced(s@),
{
    let cs = chars_of(s);
    let mut r = String::new();
    let mut i: usize = 0;
    while i < cs.len()
        invariant
            i <= cs@.len(),
            cs@ == s@,
            r@ =~= spaced(s@).take(i as int),
        decreases cs@.len() - i,
    {
        if cs[i] == '_' {
            r.push(' ');
        } else {
            r.push(cs[i]);
        }
        i += 1;
    }
    assert(spaced(s@).take(i as int) =~= spaced(s@));
    r
}

/// One character with an ASCII capital turned small.
pub open spec fn ascii_small(c: char) -> char {
    if 'A' <= c <= 'Z' {
        (c as u32 + 32) as char
    } else {
        c
    }
}

/// Turns ASCII capitals small.
pub fn to_ascii_lowercase(s: &str) -> (r: String)
    ensures
        r@ == s@.map_values(|c: char| ascii_small(c)),
{
    let cs = chars_of(s);
    let ghost want = s@.map_values(|c: char| ascii_small(c));
    let mut r = String::new();
    let mut i: usize = 0;
    while i < cs.len()
        invariant
            i <= cs@.len(),
            cs@ == s@,
            want == s@.map_values(|c: char| ascii_small(c)),
            r@ =~= want.take(i as int),
        decreases cs@.len() - i,
    {
        let c = cs[i];
        if 'A' <= c && c <= 'Z' {
            r.push((c as u8 + 32) as char);
        } else {
            r.push(c);
        }
        i += 1;
    }
    assert(want.take(i as int) =~= want);
    r
}

/// The decimal digits of a number.
pub open spec fn decimal(n: nat) -> Seq<char>
    decreases n,
{
    if n < 10 {
        seq![digit(n)]
    } else {
        decimal(n / 10).push(digit(n % 10))
    }
}

/// The character of a digit.
pub open spec fn digit(d: nat) -> char {
    ('0' as u32 + d) as char
}

pub(crate) fn digit_char(d: u64) -> (c: char)
    requires
        d < 10,
    ensures
        c == digit(d as nat),
{
    (48u8 + d as u8) as char
}

/// The decimal digits of a number, as a string.
pub fn decimal_string(n: u64) -> (r: String)
    ensures
        r@ == decimal(n as nat),
    decreases n,
{
    if n < 10 {
        let mut r = String::new();
        r.push(digit_char(n));
        assert(r@ =~= decimal(n as nat));
        r
    } else {
        let mut r = decimal_string(n / 10);
        r.push(digit_char(n % 10));
        r
    }
}

/// Two strings put together.
pub fn joined(a: &str, b: &str) -> (r: String)
    ensures
        r@ == a@ + b@,
{
    let mut r = a.to_owned();
    r.append(b);
    r
}

/// The dictionary order of strings, by code points.
pub open spec fn text_before(a: Seq<char>, b: Seq<char>) -> bool
    decreases a.len(),
{
    if b.len() == 0 {
        false
    } else if a.len() == 0 {
        true
    } else if a[0] != b[0] {
        a[0] < b[0]
    } else {
        text_before(a.drop_first(), b.drop_first())
    }
}

/// Whether `a` comes before `b` in the dictionary.
pub fn is_text_before(a: &str, b: &str) -> (r: bool)
    ensures
        r == text_before(a@, b@),
{
    let ac = chars_of(a);
    let bc = chars_of(b);
    let mut i: usize = 0;
    assert(a@.skip(0) =~= a@);
    assert(b@.skip(0) =~= b@);
    while i < ac.len() && i < bc.len() && ac[i] == bc[i]
        invariant
            i <= ac@.len(),
            i <= bc@.len(),
            ac@ == a@,
            bc@ == b@,
            text_before(a@, b@) == text_before(a@.skip(i as int), b@.skip(i as int)),
        decreases ac@.len() - i,
    {
        assert(a@.skip(i as int).drop_first() =~= a@.skip(i + 1));
        assert(b@.skip(i as int).drop_first() =~= b@.skip(i + 1));
        i += 1;
    }
    if i >= bc.len() {
        false
    } else if i >= ac.len() {
        true
    } else {
        ac[i] < bc[i]
    }
}

/// The dictionary order is a strict total order.
pub proof fn text_before_orders(a: Seq<char>, b: Seq<char>, c: Seq<char>)
    ensures
        !text_before(a, a),
        text_before(a, b) && text_before(b, c) ==> text_before(a, c),
        a == b || text_before(a, b) || text_before(b, a),
        !(text_before(a, b) && text_before(b, a)),
    decreases a.len() + b.len() + c.len(),
{
    if a.len() > 0 && b.len() > 0 && c.len() > 0 {
        text_before_orders(a.drop_first(), b.drop_first(), c.drop_first());
    } else if a.len() > 0 && b.len() > 0 {
        text_before_orders(a.drop_first(), b.drop_first(), c);
    } else if a.len() > 0 {
        text_before_orders(a.drop_first(), b, c);
    }
    if a.len() > 0 && b.len() > 0 && a[0] == b[0] && a.drop_first() == b.drop_first() {
        assert(a =~= seq![a[0]] + a.drop_first());
        assert(b =~= seq![b[0]] + b.drop_first());
    }
    if a.len() == 0 && b.len() == 0 {
        assert(a =~= b);
    }
}

} // verus!

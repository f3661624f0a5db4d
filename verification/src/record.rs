//! Records of planning runs, one for each run.
use vstd::prelude::*;

use crate::plan::Plan;
use crate::scalar::Scalar;
use crate::text::{decimal_string, trim};

verus! {

/// The year has a 29th of February.
pub open spec fn is_leap(y: int) -> bool {
    y % 4 == 0 && (y % 100 != 0 || y % 400 == 0)
}

/// The days of a year.
pub open spec fn year_len(y: int) -> int {
    if is_leap(y) {
        366
    } else {
        365
    }
}

/// The days of a month.
pub open spec fn month_len(y: int, m: int) -> int {
    if m == 2 {
        if is_leap(y) {
            29
        } else {
            28
        }
    } else if m == 4 || m == 6 || m == 9 || m == 11 {
        30
    } else {
        31
    }
}

/// The days from the beginning of 1970 to the beginning of a later year.
pub open spec fn days_to_year(y: int) -> int
    decreases y - 1970,
{
    if y <= 1970 {
        0
    } else {
        days_to_year(y - 1) + year_len(y - 1)
    }
}

/// The days from the beginning of a year to the beginning of a month.
pub open spec fn days_to_month(y: int, m: int) -> int
    decreases m,
{
    if m <= 1 {
        0
    } else {
        days_to_month(y, m - 1) + month_len(y, m - 1)
    }
}

/// There is such a date, in 1970 or later.
pub open spec fn is_date(y: int, m: int, d: int) -> bool {
    y >= 1970 && 1 <= m <= 12 && 1 <= d <= month_len(y, m)
}

/// The days from the 1st of January 1970 to a date.
pub open spec fn day_number(y: int, m: int, d: int) -> int {
    days_to_year(y) + days_to_month(y, m) + d - 1
}

/// A number with zeros in front, to a width.
pub open spec fn padded(n: nat, width: nat) -> Seq<char> {
    let digits = crate::text::decimal(n);
    if digits.len() >= width {
        digits
    } else {
        Seq::new((width - digits.len()) as nat, |i: int| '0') + digits
    }
}

/// A date and a time of the day, as text.
pub open spec fn timestamp(y: int, m: int, d: int, second: int) -> Seq<char> {
    padded(y as nat, 4) + "-"@ + padded(m as nat, 2) + "-"@ + padded(d as nat, 2) + "T"@ + padded(
        (second / 3600) as nat,
        2,
    ) + ":"@ + padded((second % 3600 / 60) as nat, 2) + ":"@ + padded((second % 60) as nat, 2)
        + "Z"@
}

/// The days to a year, counted by years and leap years.
spec fn days_counted(y: int) -> int {
    365 * (y - 1970) + (y - 1) / 4 - (y - 1) / 100 + (y - 1) / 400 - 477
}

proof fn days_are_counted(y: int)
    requires
        y >= 1970,
    ensures
        days_to_year(y) == days_counted(y),
    decreases y,
{
    if y > 1970 {
        days_are_counted(y - 1);
    }
}

proof fn cycle(y: int, k: int)
    requires
        y >= 1970,
        k >= 0,
    ensures
        days_to_year(y + 400 * k) == days_to_year(y) + 146097 * k,
        year_len(y + 400 * k) == year_len(y),
        forall|m: int| #[trigger] month_len(y + 400 * k, m) == month_len(y, m),
{
    days_are_counted(y);
    days_are_counted(y + 400 * k);
    vstd::arithmetic::div_mod::lemma_hoist_over_denominator(y - 1, 100 * k, 4);
    vstd::arithmetic::div_mod::lemma_hoist_over_denominator(y - 1, 4 * k, 100);
    vstd::arithmetic::div_mod::lemma_hoist_over_denominator(y - 1, k, 400);
    vstd::arithmetic::div_mod::lemma_mod_multiples_vanish(100 * k, y, 4);
    vstd::arithmetic::div_mod::lemma_mod_multiples_vanish(4 * k, y, 100);
    vstd::arithmetic::div_mod::lemma_mod_multiples_vanish(k, y, 400);
}

proof fn years_grow(a: int, b: int)
    requires
        1970 <= a <= b,
    ensures
        days_to_year(a) <= days_to_year(b),
    decreases b - a,
{
    if a < b {
        years_grow(a, b - 1);
    }
}

proof fn year_of_months(y: int)
    ensures
        days_to_month(y, 13) == year_len(y),
{
    reveal_with_fuel(days_to_month, 13);
}

proof fn months_grow(y: int, a: int, b: int)
    requires
        1 <= a <= b,
    ensures
        days_to_month(y, a) <= days_to_month(y, b),
    decreases b - a,
{
    if a < b {
        months_grow(y, a, b - 1);
    }
}

/// A day has one date.
pub proof fn dates_are_unique(y: int, m: int, d: int, y2: int, m2: int, d2: int)
    requires
        is_date(y, m, d),
        is_date(y2, m2, d2),
        day_number(y, m, d) == day_number(y2, m2, d2),
    ensures
        y == y2 && m == m2 && d == d2,
{
    if y < y2 || (y == y2 && m < m2) || (y == y2 && m == m2 && d < d2) {
        dates_in_order(y, m, d, y2, m2, d2);
    } else if y2 < y || m2 < m || d2 < d {
        dates_in_order(y2, m2, d2, y, m, d);
    }
}

/// Later dates have greater day numbers.
pub proof fn dates_in_order(y: int, m: int, d: int, y2: int, m2: int, d2: int)
    requires
        is_date(y, m, d),
        is_date(y2, m2, d2),
        y < y2 || (y == y2 && m < m2) || (y == y2 && m == m2 && d < d2),
    ensures
        day_number(y, m, d) < day_number(y2, m2, d2),
{
    year_of_months(y);
    months_grow(y, m + 1, 13);
    if y < y2 {
        years_grow(y + 1, y2);
        months_grow(y2, 1, m2);
    } else if m < m2 {
        months_grow(y, m + 1, m2);
    }
}

fn leap(y: u64) -> (r: bool)
    ensures
        r == is_leap(y as int),
{
    y % 4 == 0 && (y % 100 != 0 || y % 400 == 0)
}

fn days_of_year(y: u64) -> (r: u64)
    ensures
        r == year_len(y as int),
{
    if leap(y) {
        366
    } else {
        365
    }
}

fn days_of_month(y: u64, m: u64) -> (r: u64)
    ensures
        r == month_len(y as int, m as int),
{
    if m == 2 {
        if leap(y) {
            29
        } else {
            28
        }
    } else if m == 4 || m == 6 || m == 9 || m == 11 {
        30
    } else {
        31
    }
}

/// The date of a day that is counted from the 1st of January 1970.
pub fn civil_date(day: u64) -> (r: (u64, u64, u64))
    requires
        day <= u64::MAX / 86400,
    ensures
        is_date(r.0 as int, r.1 as int, r.2 as int),
        day_number(r.0 as int, r.1 as int, r.2 as int) == day,
{
    let cycles: u64 = day / 146097;
    let ghost first = day as int % 146097;
    let mut left: u64 = day % 146097;
    let mut y: u64 = 1970;
    while left >= days_of_year(y)
        invariant
            1970 <= y < 2370,
            0 <= first < 146097,
            first == days_to_year(y as int) + left,
        decreases left,
    {
        left -= days_of_year(y);
        y += 1;
        proof {
            if y >= 2370 {
                cycle(1970, 1);
            }
        }
    }
    let mut m: u64 = 1;
    let ghost of_year = left as int;
    while m < 12 && left >= days_of_month(y, m)
        invariant
            1970 <= y < 2370,
            1 <= m <= 12,
            of_year == days_to_month(y as int, m as int) + left,
        decreases 12 - m,
    {
        left -= days_of_month(y, m);
        m += 1;
    }
    proof {
        year_of_months(y as int);
        cycle(y as int, cycles as int);
        months_same(y as int, cycles as int, m as int);
    }
    (y + 400 * cycles, m, left + 1)
}

proof fn months_same(y: int, k: int, m: int)
    requires
        y >= 1970,
        k >= 0,
    ensures
        days_to_month(y + 400 * k, m) == days_to_month(y, m),
    decreases m,
{
    if m > 1 {
        cycle(y, k);
        months_same(y, k, m - 1);
    }
}

fn add_padded(r: &mut String, n: u64, width: usize)
    ensures
        final(r)@ == old(r)@ + padded(n as nat, width as nat),
{
    let digits = decimal_string(n);
    let ghost shown = digits@;
    let len: usize = crate::text::chars_of(digits.as_str()).len();
    let ghost start = r@;
    let mut k: usize = len;
    assert(start =~= start + Seq::new(0, |i: int| '0'));
    while k < width
        invariant
            len <= k,
            k <= width || k == len,
            r@ == start + Seq::new((k - len) as nat, |i: int| '0'),
        decreases width - k,
    {
        r.push('0');
        k += 1;
        assert(r@ =~= start + Seq::new((k - len) as nat, |i: int| '0'));
    }
    r.append(digits.as_str());
    assert(r@ =~= start + padded(n as nat, width as nat));
}

/// The date and time of a moment that is counted in seconds from the beginning of
/// 1970, as text (UTC).
pub fn iso8601_utc(secs: u64) -> (r: String)
    ensures
        exists|y: int, m: int, d: int|
            is_date(y, m, d) && #[trigger] day_number(y, m, d) == secs / 86400 && r@ == timestamp(
                y,
                m,
                d,
                secs as int % 86400,
            ),
{
    let second: u64 = secs % 86400;
    let (y, m, d): (u64, u64, u64) = civil_date(secs / 86400);
    let mut r = String::new();
    add_padded(&mut r, y, 4);
    r.append("-");
    add_padded(&mut r, m, 2);
    r.append("-");
    add_padded(&mut r, d, 2);
    r.append("T");
    add_padded(&mut r, second / 3600, 2);
    r.append(":");
    add_padded(&mut r, second % 3600 / 60, 2);
    r.append(":");
    add_padded(&mut r, second % 60, 2);
    r.append("Z");
    proof {
        assert(day_number(y as int, m as int, d as int) == secs / 86400);
        assert(r@ =~= timestamp(y as int, m as int, d as int, second as int));
    }
    r
}

/// What is kept of a run.
#[derive(Debug)]
pub struct PlanRecord {
    /// When the run was, as text (UTC).
    pub ts: String,
    pub ts_unix: u64,
    pub target: String,
    pub rate_per_min: Scalar,
    pub mode: String,
    pub objective: Option<String>,
    pub max_tier: Option<u8>,
    pub elapsed_ms: Scalar,
    pub recipes: usize,
    pub ops_per_min: Scalar,
    pub cost: Scalar,
    pub machines: Scalar,
    pub machines_int: u64,
    pub net_eu_t: Scalar,
    pub objective_score: Scalar,
    pub raw_items_per_min: Scalar,
    pub raw_fluids_mb_per_min: Scalar,
    pub notes: Vec<String>,
}

impl PlanRecord {
    /// The record of a plan that was made at a moment, in seconds from the
    /// beginning of 1970.
    pub fn from_plan(plan: &Plan, objective: Option<&str>, max_tier: Option<u8>, secs: u64) -> (r:
        Self)
        ensures
            exists|y: int, m: int, d: int|
                is_date(y, m, d) && #[trigger] day_number(y, m, d) == secs / 86400 && r.ts@
                    == timestamp(y, m, d, secs as int % 86400),
            r.ts_unix == secs,
            r.target@ == plan.target.id@,
            r.rate_per_min == plan.rate_per_min,
            r.mode@ == plan.mode@,
            crate::graph::text_of(r.objective) == crate::graph::str_text(objective),
            r.max_tier == max_tier,
            r.elapsed_ms == plan.elapsed_ms,
            r.recipes == plan.totals.distinct_recipes,
            r.ops_per_min == plan.totals.recipe_ops_per_min,
            r.cost == plan.totals.estimated_cost,
            r.machines == plan.totals.total_machines,
            r.machines_int == plan.totals.total_machines_int,
            r.net_eu_t == plan.totals.net_eu_t,
            r.objective_score == plan.totals.objective_score,
            r.raw_items_per_min == plan.totals.raw_items_per_min,
            r.raw_fluids_mb_per_min == plan.totals.raw_fluids_mb_per_min,
            crate::intern::texts(r.notes@) == crate::intern::texts(plan.notes@),
    {
        let mut notes: Vec<String> = Vec::new();
        let mut i: usize = 0;
        while i < plan.notes.len()
            invariant
                i <= plan.notes@.len(),
                notes@.len() == i,
                forall|k: int| 0 <= k < i ==> (#[trigger] notes@[k])@ == plan.notes@[k]@,
            decreases plan.notes@.len() - i,
        {
            notes.push(plan.notes[i].clone());
            i += 1;
        }
        assert(crate::intern::texts(notes@) =~= crate::intern::texts(plan.notes@));
        PlanRecord {
            ts: iso8601_utc(secs),
            ts_unix: secs,
            target: plan.target.id.clone(),
            rate_per_min: plan.rate_per_min,
            mode: plan.mode.clone(),
            objective: match objective {
                Some(text) => Some(text.to_owned()),
                None => None,
            },
            max_tier,
            elapsed_ms: plan.elapsed_ms,
            recipes: plan.totals.distinct_recipes,
            ops_per_min: plan.totals.recipe_ops_per_min,
            cost: plan.totals.estimated_cost,
            machines: plan.totals.total_machines,
            machines_int: plan.totals.total_machines_int,
            net_eu_t: plan.totals.net_eu_t,
            objective_score: plan.totals.objective_score,
            raw_items_per_min: plan.totals.raw_items_per_min,
            raw_fluids_mb_per_min: plan.totals.raw_fluids_mb_per_min,
            notes,
        }
    }
}

/// Whether a line of a file of records holds nothing.
pub fn is_blank(line: &str) -> (r: bool)
    ensures
        r == (crate::text::trimmed(line@).len() == 0),
{
    let t = trim(line);
    crate::text::chars_of(t.as_str()).len() == 0
}

/// The last records, at most `limit`.
pub fn last_records<T>(records: Vec<T>, limit: usize) -> (r: Vec<T>)
    ensures
        records@.len() <= limit ==> r@ == records@,
        records@.len() > limit ==> r@ == records@.skip(records@.len() - limit),
{
    let mut records = records;
    if records.len() > limit {
        let at: usize = records.len() - limit;
        let ghost all = records@;
        let r = records.split_off(at);
        assert(r@ =~= all.skip(all.len() - limit));
        r
    } else {
        records
    }
}

} // verus!

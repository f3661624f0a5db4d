//! Strings, numbers, dates and orders.
use gt_planner::choices::Choices;
use gt_planner::error::Error;
use gt_planner::fixed::Fixed;
use gt_planner::gpu::eval::{clamp_iterations, evaluator_name};
use gt_planner::gpu::linear::GpuUnavailable;
use gt_planner::intern::Interner;
use gt_planner::list::sum_capped;
use gt_planner::order::{sort_dedup, sort_dedup_wide};
use gt_planner::planner::beam::choices_hash;
use gt_planner::planner::mcts::dedup_actions;
use gt_planner::record::{civil_date, is_blank, iso8601_utc, last_records};
use gt_planner::scalar::{Arithmetic, Scalar};
use gt_planner::text::{
    contains, decimal_string, ends_with, is_text_before, joined, same, short_name, starts_with,
    to_ascii_lowercase, trim, underscores_to_blanks,
};

#[test]
fn intern_roundtrip() {
    let mut it = Interner::new();
    let a = it.intern("gtceu:iron");
    let b = it.intern("gtceu:copper");
    let a2 = it.intern("gtceu:iron");
    assert_eq!(a, a2);
    assert_ne!(a, b);
    assert_eq!(it.get(a), "gtceu:iron");
    assert_eq!(it.lookup("gtceu:copper"), Some(b));
    assert_eq!(it.lookup("nope"), None);
    assert_eq!(it.len(), 2);
}

#[test]
fn iso8601_known_epoch() {
    assert_eq!(iso8601_utc(0), "1970-01-01T00:00:00Z");
    assert_eq!(iso8601_utc(1_700_000_000), "2023-11-14T22:13:20Z");
}

#[test]
fn dates_around_leap_days() {
    assert_eq!(iso8601_utc(951_782_400), "2000-02-29T00:00:00Z");
    assert_eq!(iso8601_utc(951_868_799), "2000-02-29T23:59:59Z");
    assert_eq!(iso8601_utc(4_107_542_400), "2100-03-01T00:00:00Z");
    assert_eq!(civil_date(0), (1970, 1, 1));
    assert_eq!(civil_date(364), (1970, 12, 31));
    assert_eq!(civil_date(365), (1971, 1, 1));
    // Later days have later dates.
    for day in 0..2000 {
        assert!(civil_date(day) < civil_date(day + 1));
    }
}

#[test]
fn white_space_is_trimmed() {
    assert_eq!(trim("  a b\t\n"), "a b");
    assert_eq!(trim("\u{3000}\u{2003}x\u{a0}"), "x");
    assert_eq!(trim(" \n "), "");
    assert!(is_blank(" \t\r\n"));
    assert!(is_blank("\u{3000}"));
    assert!(!is_blank(" { "));
}

#[test]
fn characters_of_white_space() {
    let blanks: Vec<u32> = (0..=0x0010_ffff)
        .filter(|&n| char::from_u32(n).is_some_and(|c| is_blank(&c.to_string())))
        .collect();
    let mut expected: Vec<u32> = (0x9..=0xd).collect();
    expected.extend([0x20, 0x85, 0xa0, 0x1680]);
    expected.extend(0x2000..=0x200a);
    expected.extend([0x2028, 0x2029, 0x202f, 0x205f, 0x3000]);
    assert_eq!(blanks, expected);
}

#[test]
fn parts_of_strings() {
    assert!(contains("gtceu:copper_ingot", "per_in"));
    assert!(contains("x", ""));
    assert!(!contains("ab", "abc"));
    assert!(starts_with("recipe/a", "recipe") && !starts_with("a", "recipe"));
    assert!(ends_with("multiblock_info", "_info") && !ends_with("info", "_info"));
    assert_eq!(short_name("a:b:c"), "c");
    assert_eq!(short_name("abc"), "abc");
    assert_eq!(underscores_to_blanks("a_b_c"), "a b c");
    assert_eq!(to_ascii_lowercase("AbÄ"), "abÄ");
    assert_eq!(joined("a", "b"), "ab");
    assert!(same("α", "α") && !same("a", "ab"));
    assert_eq!(decimal_string(0), "0");
    assert_eq!(decimal_string(u64::MAX), "18446744073709551615");
    assert!(is_text_before("a", "ab") && is_text_before("ab", "b") && !is_text_before("a", "a"));
}

#[test]
fn messages_of_errors() {
    let d = || "x".to_string();
    assert_eq!(Error::Io(d()).message(), "IO 错误: x");
    assert_eq!(Error::Json(d()).message(), "JSON 解析错误: x");
    assert_eq!(Error::Format(d()).message(), "数据格式错误: x");
    assert_eq!(Error::MaterialNotFound(d()).message(), "未找到材料: x");
    assert_eq!(Error::RecipeNotFound(d()).message(), "未找到配方: x");
    assert_eq!(Error::Planning(d()).message(), "规划失败: x");
}

#[test]
fn sorted_without_repetition() {
    assert_eq!(sort_dedup(&vec![3, 1, 3, 2, 1]), vec![1, 2, 3]);
    assert_eq!(sort_dedup(&vec![]), Vec::<u32>::new());
    assert_eq!(sort_dedup_wide(&vec![9, 9, 0]), vec![0, 9]);
}

#[test]
fn actions_once_each() {
    assert_eq!(
        dedup_actions(vec![(2, 1), (1, 5), (2, 1), (1, 4)]),
        vec![(2, 1), (1, 5), (1, 4)]
    );
}

#[test]
fn sums_stop_at_the_greatest_number() {
    assert_eq!(sum_capped(2, 3), 5);
    assert_eq!(sum_capped(usize::MAX, 1), usize::MAX);
}

#[test]
fn assignments() {
    let mut c = Choices::new();
    c.insert(7, 1);
    c.insert(3, 2);
    c.insert(7, 4);
    assert_eq!(c.get(7), Some(4));
    assert_eq!(c.get(3), Some(2));
    assert_eq!(c.get(1), None);
    assert_eq!(c.materials(), vec![3, 7]);
    // The order in which entries are made does not matter.
    let mut d = Choices::new();
    d.insert(7, 4);
    d.insert(3, 2);
    assert_eq!(choices_hash(&c), choices_hash(&d));
    let mut e = Choices::new();
    e.insert(7, 5);
    e.insert(3, 2);
    assert_ne!(choices_hash(&c), choices_hash(&e));
    assert_eq!(choices_hash(&Choices::new()), 1469598103934665603);
}

#[test]
fn last_records_in_order() {
    assert_eq!(last_records(vec![1, 2, 3], 2), vec![2, 3]);
    assert_eq!(last_records(vec![1, 2, 3], 9), vec![1, 2, 3]);
    assert_eq!(last_records(vec![1, 2, 3], 0), Vec::<i32>::new());
}

#[test]
fn names_and_limits_of_devices() {
    assert_eq!(clamp_iterations(0), 1);
    assert_eq!(clamp_iterations(60), 60);
    assert!(evaluator_name("Card").contains("Card"));
    assert!(GpuUnavailable("no device".to_string()).message().contains("no device"));
}

fn fixed(num: u64, den: u64) -> Scalar {
    Fixed.ratio(num, den)
}

#[test]
fn fixed_point_numbers() {
    let third = fixed(1, 3);
    assert_eq!(Fixed.decimals(third, 6), "0.333333");
    assert_eq!(Fixed.decimals(fixed(5, 2), 1), "2.5");
    assert_eq!(Fixed.decimals(fixed(1_234_567, 1000), 2), "1234.56");
    assert_eq!(Fixed.decimals(fixed(7, 1), 0), "7");
    let minus = Fixed.minus(fixed(1, 2), fixed(2, 1));
    assert_eq!(Fixed.decimals(minus, 3), "-1.500");
    assert_eq!(Fixed.abs(minus), fixed(3, 2));
    assert_eq!(Fixed.plus(third, third), fixed(666666, 1_000_000));
    assert_eq!(Fixed.times(fixed(3, 2), minus), Fixed.minus(fixed(0, 1), fixed(9, 4)));
    assert_eq!(Fixed.over(fixed(1, 1), fixed(8, 1)), fixed(1, 8));
    assert_eq!(Fixed.sqrt(fixed(2, 1)), fixed(1_414_213, 1_000_000));
    assert_eq!(Fixed.ceil(fixed(5, 2)), 3);
    assert_eq!(Fixed.ceil(fixed(2, 1)), 2);
    assert_eq!(Fixed.ceil(minus), 0);
    assert_eq!(Fixed.ln(fixed(1, 1)), fixed(0, 1));
    assert_eq!(Fixed.ln(fixed(2, 1)), fixed(693147, 1_000_000));
    assert_eq!(Fixed.ln(fixed(1, 2)), Fixed.minus(fixed(0, 1), fixed(693147, 1_000_000)));
    assert!(Fixed.lt(minus, third) && Fixed.le(third, third) && !Fixed.lt(third, third));
    assert_eq!(Fixed.least(minus, third), minus);
    assert_eq!(Fixed.most(minus, third), third);
    assert_eq!(Fixed.scientific(fixed(5, 2)), "2.500000e0");
}

#[test]
fn fixed_point_numbers_out_of_reach() {
    let inf = Fixed.infinity();
    let one = fixed(1, 1);
    assert!(!Fixed.is_finite(inf) && Fixed.is_finite(one));
    assert_eq!(Fixed.plus(inf, one), inf);
    assert_eq!(Fixed.minus(inf, inf), inf);
    assert_eq!(Fixed.times(inf, one), inf);
    assert_eq!(Fixed.over(one, fixed(0, 1)), inf);
    assert_eq!(Fixed.over(one, inf), fixed(0, 1));
    assert_eq!(Fixed.decimals(inf, 2), "inf");
    // Sums that are too great stop at the greatest number.
    let great = fixed(9_000_000_000_000, 1);
    assert_eq!(Fixed.plus(great, great), inf);
    assert!(Fixed.rank(one) <= Fixed.rank(great));
}

use changelint::date::parse;
use std::cmp::Ordering;

#[test]
fn parses_a_valid_date() {
    let d = parse("2024-03-15").unwrap();
    assert_eq!((d.year, d.month, d.day), (2024, 3, 15));
}

#[test]
fn rejects_month_13() {
    assert!(parse("2024-13-01").is_none());
}

#[test]
fn rejects_month_00() {
    assert!(parse("2024-00-01").is_none());
}

#[test]
fn rejects_april_31st() {
    assert!(parse("2024-04-31").is_none());
}

#[test]
fn accepts_february_29_in_a_leap_year() {
    assert!(parse("2024-02-29").is_some());
}

#[test]
fn rejects_february_29_in_a_non_leap_year() {
    assert!(parse("2023-02-29").is_none());
}

#[test]
fn rejects_february_29_in_a_century_non_leap_year() {
    assert!(parse("1900-02-29").is_none()); // divisible by 100 but not 400
}

#[test]
fn accepts_february_29_in_a_400_divisible_year() {
    assert!(parse("2000-02-29").is_some());
}

#[test]
fn rejects_malformed_separators() {
    assert!(parse("2024/03/15").is_none());
}

#[test]
fn rejects_wrong_length() {
    assert!(parse("24-3-15").is_none());
}

#[test]
fn dates_order_naturally_by_derived_ord() {
    let earlier = parse("2024-01-01").unwrap();
    let later = parse("2024-06-01").unwrap();
    assert_eq!(earlier.cmp(&later), Ordering::Less);
}

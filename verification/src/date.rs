//! Minimal ISO 8601 calendar-date (`YYYY-MM-DD`) validation and ordering.

use vstd::prelude::*;

use crate::semver::text_order;
use crate::text::{
    all_digits, chars_of, decimal, digits_number, digits_u64_at, digits_value, is_digit, push_decimal,
};

verus! {

#[derive(Debug, Clone, Copy, PartialEq, Eq, PartialOrd, Ord)]
pub struct Date {
    pub year: u32,
    pub month: u8,
    pub day: u8,
}

/// Gregorian leap years: every fourth year, except centuries that are not
/// divisible by 400.
pub open spec fn leap_year(year: u32) -> bool {
    (year % 4 == 0 && year % 100 != 0) || year % 400 == 0
}

/// The number of days of `month` in `year`; 0 for a month outside 1-12.
pub open spec fn month_length(year: u32, month: u8) -> u8 {
    if month == 1 || month == 3 || month == 5 || month == 7 || month == 8 || month == 10 || month
        == 12 {
        31
    } else if month == 4 || month == 6 || month == 9 || month == 11 {
        30
    } else if month == 2 {
        if leap_year(year) {
            29
        } else {
            28
        }
    } else {
        0
    }
}

/// What `parse` gives for `s`: ten characters `YYYY-MM-DD`, where every
/// field is ASCII digits only, the month is 1-12 and the day is a real day
/// of that month in that year. Any text with a non-ASCII character is
/// refused, so counting characters here is the same as counting bytes.
pub open spec fn parse_spec(s: Seq<char>) -> Option<Date> {
    if s.len() == 10 && s[4] == '-' && s[7] == '-' {
        let y = digits_number(s.subrange(0, 4));
        let m = digits_number(s.subrange(5, 7));
        let d = digits_number(s.subrange(8, 10));
        if y is Some && m is Some && d is Some {
            let date = Date { year: y->0 as u32, month: m->0 as u8, day: d->0 as u8 };
            if 1 <= date.month <= 12 && date.day != 0 && date.day <= month_length(
                date.year,
                date.month,
            ) {
                Some(date)
            } else {
                None
            }
        } else {
            None
        }
    } else {
        None
    }
}

/// Whether `a` is a later date than `b` (year, then month, then day).
pub open spec fn later(a: Date, b: Date) -> bool {
    a.year > b.year || (a.year == b.year && (a.month > b.month || (a.month == b.month && a.day
        > b.day)))
}

/// How `{:?}` writes a date: `Date { year: 2024, month: 3, day: 15 }`.
pub open spec fn debug_text(d: Date) -> Seq<char> {
    "Date { year: "@ + decimal(d.year as nat) + ", month: "@ + decimal(d.month as nat)
        + ", day: "@ + decimal(d.day as nat) + " }"@
}

fn is_leap_year(year: u32) -> (b: bool)
    ensures
        b == leap_year(year),
{
    (year % 4 == 0 && year % 100 != 0) || year % 400 == 0
}

fn days_in_month(year: u32, month: u8) -> (d: u8)
    ensures
        d == month_length(year, month),
{
    match month {
        1 | 3 | 5 | 7 | 8 | 10 | 12 => 31,
        4 | 6 | 9 | 11 => 30,
        2 => {
            if is_leap_year(year) {
                29
            } else {
                28
            }
        },
        _ => 0,
    }
}

proof fn lemma_small_value(s: Seq<char>, bound: nat)
    requires
        digits_number(s) is Some,
        s.len() <= 4,
        bound == (if s.len() <= 2 {
            99nat
        } else {
            9999nat
        }),
    ensures
        digits_number(s)->0 <= bound,
{
    lemma_digits_bound(s);
}

proof fn lemma_digits_bound(d: Seq<char>)
    requires
        crate::text::all_digits(d),
    ensures
        crate::text::digits_value(d) < (if d.len() == 0 {
            1nat
        } else if d.len() == 1 {
            10nat
        } else if d.len() == 2 {
            100nat
        } else if d.len() == 3 {
            1000nat
        } else if d.len() == 4 {
            10000nat
        } else {
            crate::text::digits_value(d) + 1
        }),
    decreases d.len(),
{
    if d.len() > 0 {
        assert(crate::text::all_digits(d.drop_last())) by {
            assert forall|i: int| 0 <= i < d.drop_last().len() implies crate::text::is_digit(
                #[trigger] d.drop_last()[i],
            ) by {
                assert(d.drop_last()[i] == d[i]);
            }
        }
        assert(crate::text::is_digit(d[d.len() - 1]));
        lemma_digits_bound(d.drop_last());
    }
}

/// Parses a strict `YYYY-MM-DD` string, validating that the month is
/// 01-12 and the day is a real day of that month in that year
/// (including the February-29 leap-year rule).
pub fn parse(s: &str) -> (r: Option<Date>)
    ensures
        r == parse_spec(s@),
{
    let v = chars_of(s);
    if v.len() != 10 || v[4] != '-' || v[7] != '-' {
        return None;
    }
    let y = digits_u64_at(&v, 0, 4);
    let m = digits_u64_at(&v, 5, 7);
    let d = digits_u64_at(&v, 8, 10);
    proof {
        let ys = v@.subrange(0, 4);
        let ms = v@.subrange(5, 7);
        let ds = v@.subrange(8, 10);
        if digits_number(ys) is Some {
            lemma_small_value(ys, 9999);
        }
        if digits_number(ms) is Some {
            lemma_small_value(ms, 99);
        }
        if digits_number(ds) is Some {
            lemma_small_value(ds, 99);
        }
    }
    let (year, month, day) = match (y, m, d) {
        (Some(y), Some(m), Some(d)) => (y as u32, m as u8, d as u8),
        _ => {
            return None;
        },
    };
    if !(1 <= month && month <= 12) {
        return None;
    }
    if day == 0 || day > days_in_month(year, month) {
        return None;
    }
    Some(Date { year, month, day })
}

/// Whether `a` is a later date than `b`.
pub fn is_later(a: &Date, b: &Date) -> (r: bool)
    ensures
        r == later(*a, *b),
{
    a.year > b.year || (a.year == b.year && (a.month > b.month || (a.month == b.month && a.day
        > b.day)))
}

/// Appends `{:?}` of `d` to `out`.
pub fn push_debug(out: &mut String, d: &Date)
    ensures
        final(out)@ == old(out)@ + debug_text(*d),
{
    out.append("Date { year: ");
    push_decimal(out, d.year as u64);
    out.append(", month: ");
    push_decimal(out, d.month as u64);
    out.append(", day: ");
    push_decimal(out, d.day as u64);
    out.append(" }");
    assert(final(out)@ =~= old(out)@ + debug_text(*d));
}

/// Every date `parse` accepts is a real calendar date: a month 1-12 and
/// a day of that month in that year.
pub proof fn lemma_parsed_dates_are_real(s: Seq<char>)
    requires
        parse_spec(s) is Some,
    ensures
        1 <= parse_spec(s)->0.month <= 12,
        1 <= parse_spec(s)->0.day <= month_length(parse_spec(s)->0.year, parse_spec(s)->0.month),
{
}

/// February has 29 days exactly in leap years, and 28 otherwise.
pub proof fn lemma_february_length(year: u32)
    ensures
        month_length(year, 2) == (if leap_year(year) {
            29u8
        } else {
            28u8
        }),
{
}

/// Dates are totally ordered by `later`: for any two, exactly one of
/// "later", "earlier" and "the same date" holds, and `later` is transitive.
pub proof fn lemma_later_is_a_total_order(a: Date, b: Date, c: Date)
    ensures
        !later(a, a),
        (later(a, b) && !later(b, a) && a != b) || (later(b, a) && !later(a, b) && a != b) || (
        a == b && !later(a, b) && !later(b, a)),
        later(a, b) && later(b, c) ==> later(a, c),
{
}

/// -1, 0 or 1 as `x` is below, at or above zero.
spec fn sign(x: int) -> int {
    if x < 0 {
        -1
    } else if x == 0 {
        0
    } else {
        1
    }
}

/// Texts that start with prefixes of one length are ordered by those
/// prefixes, or by what follows when the prefixes are the same.
proof fn lemma_text_order_prefix(p1: Seq<char>, p2: Seq<char>, r1: Seq<char>, r2: Seq<char>)
    requires
        p1.len() == p2.len(),
    ensures
        text_order(p1 + r1, p2 + r2) == (if p1 == p2 {
            text_order(r1, r2)
        } else {
            text_order(p1, p2)
        }),
    decreases p1.len(),
{
    if p1.len() == 0 {
        assert(p1 + r1 =~= r1);
        assert(p2 + r2 =~= r2);
        assert(p1 =~= p2);
    } else {
        let x = p1 + r1;
        let y = p2 + r2;
        assert(x[0] == p1[0] && y[0] == p2[0]);
        if p1[0] == p2[0] {
            assert(x.drop_first() =~= p1.drop_first() + r1);
            assert(y.drop_first() =~= p2.drop_first() + r2);
            lemma_text_order_prefix(p1.drop_first(), p2.drop_first(), r1, r2);
            if p1.drop_first() == p2.drop_first() {
                assert(p1 =~= p2) by {
                    assert forall|i: int| 0 <= i < p1.len() implies p1[i] == p2[i] by {
                        if i > 0 {
                            assert(p1[i] == p1.drop_first()[i - 1]);
                            assert(p2[i] == p2.drop_first()[i - 1]);
                        }
                    }
                }
            } else {
                assert(p1 != p2);
            }
        } else {
            assert(p1 != p2);
        }
    }
}

/// Digit strings of one length are ordered as text exactly as the
/// numbers they spell are ordered.
proof fn lemma_digits_order(a: Seq<char>, b: Seq<char>)
    requires
        a.len() == b.len(),
        all_digits(a),
        all_digits(b),
    ensures
        text_order(a, b) == sign(digits_value(a) - digits_value(b)),
    decreases a.len(),
{
    if a.len() > 0 {
        let a1 = a.drop_last();
        let b1 = b.drop_last();
        assert(all_digits(a1)) by {
            assert forall|i: int| 0 <= i < a1.len() implies is_digit(#[trigger] a1[i]) by {
                assert(a1[i] == a[i]);
            }
        }
        assert(all_digits(b1)) by {
            assert forall|i: int| 0 <= i < b1.len() implies is_digit(#[trigger] b1[i]) by {
                assert(b1[i] == b[i]);
            }
        }
        lemma_digits_order(a1, b1);
        assert(a =~= a1 + seq![a.last()]);
        assert(b =~= b1 + seq![b.last()]);
        lemma_text_order_prefix(a1, b1, seq![a.last()], seq![b.last()]);
        assert(is_digit(a[a.len() - 1]) && is_digit(b[b.len() - 1]));
        let x = seq![a.last()];
        let y = seq![b.last()];
        assert(x.drop_first() =~= Seq::<char>::empty());
        assert(y.drop_first() =~= Seq::<char>::empty());
        crate::semver::lemma_text_order_zero(a1, b1);
        let da = crate::text::digit_value(a.last());
        let db = crate::text::digit_value(b.last());
        assert(da < 10 && db < 10);
        assert(da - db == a.last() as int - b.last() as int);
        assert(digits_value(a) == digits_value(a1) * 10 + da);
        assert(digits_value(b) == digits_value(b1) * 10 + db);
        if a1 == b1 {
            assert(text_order(Seq::<char>::empty(), Seq::<char>::empty()) == 0);
            assert(text_order(x, y) == sign(a.last() as int - b.last() as int));
        } else {
            assert(text_order(a1, b1) != 0);
            if digits_value(a1) < digits_value(b1) {
                assert(digits_value(a1) * 10 + 10 <= digits_value(b1) * 10);
            } else {
                assert(digits_value(b1) * 10 + 10 <= digits_value(a1) * 10);
            }
        }
    }
}

/// Valid dates are ordered as their `YYYY-MM-DD` texts are: a date is
/// later exactly when its text comes after, and two dates are the same
/// exactly when their texts are.
pub proof fn lemma_date_order_is_text_order(s1: Seq<char>, s2: Seq<char>)
    requires
        parse_spec(s1) is Some,
        parse_spec(s2) is Some,
    ensures
        later(parse_spec(s1)->0, parse_spec(s2)->0) == (text_order(s1, s2) > 0),
        (parse_spec(s1)->0 == parse_spec(s2)->0) == (s1 == s2),
{
    let y1 = s1.subrange(0, 4);
    let m1 = s1.subrange(5, 7);
    let e1 = s1.subrange(8, 10);
    let y2 = s2.subrange(0, 4);
    let m2 = s2.subrange(5, 7);
    let e2 = s2.subrange(8, 10);
    let dash = seq!['-'];
    assert(s1 =~= y1 + (dash + (m1 + (dash + e1))));
    assert(s2 =~= y2 + (dash + (m2 + (dash + e2))));
    lemma_text_order_prefix(y1, y2, dash + (m1 + (dash + e1)), dash + (m2 + (dash + e2)));
    lemma_text_order_prefix(dash, dash, m1 + (dash + e1), m2 + (dash + e2));
    lemma_text_order_prefix(m1, m2, dash + e1, dash + e2);
    lemma_text_order_prefix(dash, dash, e1, e2);
    lemma_digits_order(y1, y2);
    lemma_digits_order(m1, m2);
    lemma_digits_order(e1, e2);
    crate::semver::lemma_text_order_zero(y1, y2);
    crate::semver::lemma_text_order_zero(m1, m2);
    crate::semver::lemma_text_order_zero(e1, e2);
    crate::semver::lemma_text_order_zero(s1, s2);
    crate::semver::lemma_text_order_antisymmetric(s1, s2);
    lemma_small_value(y1, 9999);
    lemma_small_value(m1, 99);
    lemma_small_value(e1, 99);
    lemma_small_value(y2, 9999);
    lemma_small_value(m2, 99);
    lemma_small_value(e2, 99);
}

/// The lengths of the months: 31 days in January, March, May, July,
/// August, October and December; 30 in April, June, September and
/// November; 29 or 28 in February as the year is a leap year or not; and
/// no day at all in a month outside 1-12.
pub proof fn lemma_month_lengths(year: u32, month: u8)
    ensures
        month == 1 || month == 3 || month == 5 || month == 7 || month == 8 || month == 10
            || month == 12 ==> month_length(year, month) == 31,
        month == 4 || month == 6 || month == 9 || month == 11 ==> month_length(year, month) == 30,
        month == 2 && leap_year(year) ==> month_length(year, month) == 29,
        month == 2 && !leap_year(year) ==> month_length(year, month) == 28,
        month == 0 || month > 12 ==> month_length(year, month) == 0,
{
}

/// The Gregorian leap years: every fourth year, except a century year
/// that 400 does not divide.
pub proof fn lemma_leap_years(year: u32)
    ensures
        year % 4 != 0 ==> !leap_year(year),
        year % 4 == 0 && year % 100 != 0 ==> leap_year(year),
        year % 100 == 0 && year % 400 != 0 ==> !leap_year(year),
        year % 400 == 0 ==> leap_year(year),
{
}

/// A date text that `parse` accepts is ten characters: digits, with a
/// `-` as the fifth and the eighth.
pub proof fn lemma_parsed_text_shape(s: Seq<char>)
    requires
        parse_spec(s) is Some,
    ensures
        s.len() == 10,
        s[4] == '-' && s[7] == '-',
        forall|i: int| 0 <= i < 10 && i != 4 && i != 7 ==> '0' <= #[trigger] s[i] && s[i] <= '9',
{
    assert forall|i: int| 0 <= i < 10 && i != 4 && i != 7 implies '0' <= #[trigger] s[i] && s[i] <= '9' by {
        if i < 4 {
            assert(s.subrange(0, 4)[i] == s[i]);
            assert(is_digit(s.subrange(0, 4)[i]));
        } else if i < 7 {
            assert(s.subrange(5, 7)[i - 5] == s[i]);
            assert(is_digit(s.subrange(5, 7)[i - 5]));
        } else {
            assert(s.subrange(8, 10)[i - 8] == s[i]);
            assert(is_digit(s.subrange(8, 10)[i - 8]));
        }
    }
}

} // verus!

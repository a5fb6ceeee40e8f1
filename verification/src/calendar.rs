//! Calendar dates, without a date library for one file name.

use crate::text::{
    append, append_str, chars_of, decimal_value, law_numbers_read_back, lemma_decimal_width,
    string_of, zero_padded, zero_padded_of,
};
use vstd::prelude::*;

verus! {

/// Whether a year has a leap day.
pub open spec fn is_leap(y: int) -> bool {
    y % 4 == 0 && (y % 100 != 0 || y % 400 == 0)
}

/// The days in a month.
pub open spec fn month_days(y: int, m: int) -> int {
    if m == 2 {
        if is_leap(y) {
            29
        } else {
            28
        }
    } else if m == 4 || m == 6 || m == 9 || m == 11 {
        30
    } else {
        31
    }
}

/// The days in a year before a month.
pub open spec fn days_before_month(y: int, m: int) -> int
    decreases m,
{
    if m <= 1 {
        0
    } else {
        days_before_month(y, m - 1) + month_days(y, m - 1)
    }
}

/// The leap days from year 1 through year `y`.
pub open spec fn leap_days(y: int) -> int {
    y / 4 - y / 100 + y / 400
}

/// The days from the Unix epoch to the first day of a year.
pub open spec fn year_start(y: int) -> int {
    365 * (y - 1970) + leap_days(y - 1) - leap_days(1969)
}

/// Whether there is such a date.
pub open spec fn is_date(y: int, m: int, d: int) -> bool {
    1 <= m <= 12 && 1 <= d <= month_days(y, m)
}

/// The days from the Unix epoch to a date.
pub open spec fn days_of(y: int, m: int, d: int) -> int {
    year_start(y) + days_before_month(y, m) + (d - 1)
}

/// A year starts where the one before it ends, and 1970 with the epoch.
#[verifier::spinoff_prover]
pub proof fn law_years_follow_each_other(y: int)
    ensures
        year_start(1970) == 0,
        year_start(y + 1) == year_start(y) + days_before_month(y, 13),
{
    reveal_with_fuel(days_before_month, 14);
    lemma_leap_day(y);
}

/// The days before each month.
proof fn lemma_days_before_month(y: int, m: int)
    requires
        1 <= m <= 13,
    ensures
        days_before_month(y, m) == (if m == 1 {
            0
        } else if m == 2 {
            31
        } else {
            31 + month_days(y, 2) + (153 * (m - 3) + 2) / 5
        }),
{
    reveal_with_fuel(days_before_month, 14);
}

/// One date comes before another.
pub open spec fn earlier(a: (int, int, int), b: (int, int, int)) -> bool {
    a.0 < b.0 || (a.0 == b.0 && (a.1 < b.1 || (a.1 == b.1 && a.2 < b.2)))
}

/// Later years start later.
proof fn lemma_year_starts(a: int, b: int)
    requires
        a <= b,
    ensures
        year_start(a) <= year_start(b),
    decreases b - a,
{
    if a < b {
        lemma_year_starts(a, b - 1);
        law_years_follow_each_other(b - 1);
        lemma_days_before_month(b - 1, 13);
    }
}

/// Later dates are later days: no day has two dates, and the dates of
/// successive days never repeat.
pub proof fn law_dates_are_in_order(a: (int, int, int), b: (int, int, int))
    requires
        is_date(a.0, a.1, a.2),
        is_date(b.0, b.1, b.2),
    ensures
        earlier(a, b) <==> days_of(a.0, a.1, a.2) < days_of(b.0, b.1, b.2),
        days_of(a.0, a.1, a.2) == days_of(b.0, b.1, b.2) ==> a == b,
{
    if earlier(a, b) {
        lemma_earlier(a, b);
    } else if earlier(b, a) {
        lemma_earlier(b, a);
    }
}

proof fn lemma_earlier(a: (int, int, int), b: (int, int, int))
    requires
        is_date(a.0, a.1, a.2),
        is_date(b.0, b.1, b.2),
        earlier(a, b),
    ensures
        days_of(a.0, a.1, a.2) < days_of(b.0, b.1, b.2),
{
    lemma_days_before_month(a.0, a.1);
    lemma_days_before_month(a.0, a.1 + 1);
    lemma_days_before_month(a.0, 13);
    lemma_days_before_month(b.0, b.1);
    if a.0 < b.0 {
        law_years_follow_each_other(a.0);
        lemma_year_starts(a.0 + 1, b.0);
    }
}

/// What the parts of a day's place in its 400-year era come to, counting years
/// from March: the year of the era, and the day of that year.
proof fn lemma_year_of_era(doe: int)
    requires
        0 <= doe < 146_097,
    ensures
        ({
            let yoe = (doe - doe / 1460 + doe / 36_524 - doe / 146_096) / 365;
            let doy = doe - (365 * yoe + yoe / 4 - yoe / 100);
            &&& 0 <= yoe < 400
            &&& 0 <= doy <= 365
            &&& doy == 365 ==> is_leap(yoe + 1)
        }),
{
    let q = if doe / 36_524 < 3 {
        doe / 36_524
    } else {
        3
    };
    let r = doe - 36_524 * q;
    let k = r / 1461;
    let s = r - 1461 * k;
    let t = if s / 365 < 3 {
        s / 365
    } else {
        3
    };
    let u = s - 365 * t;
    let yoe = (doe - doe / 1460 + doe / 36_524 - doe / 146_096) / 365;
    assert(0 <= k <= 24);
    assert(0 <= u <= 365);
    assert(yoe == 100 * q + 4 * k + t) by {
        if q == 0 {
        } else if q == 1 {
        } else if q == 2 {
        } else {
        }
    }
    assert(yoe / 4 == 25 * q + k);
    assert(yoe / 100 == q);
}

/// One more year is one more fourth year, or none.
proof fn lemma_fourth_year(y: int)
    ensures
        y / 4 == (y - 1) / 4 + if y % 4 == 0 {
            1int
        } else {
            0
        },
{
}

/// One more year is one more hundredth year, or none.
proof fn lemma_hundredth_year(y: int)
    ensures
        y / 100 == (y - 1) / 100 + if y % 100 == 0 {
            1int
        } else {
            0
        },
        y % 100 == 0 ==> y % 4 == 0,
{
}

/// One more year is one more four hundredth year, or none.
proof fn lemma_four_hundredth_year(y: int)
    ensures
        y / 400 == (y - 1) / 400 + if y % 400 == 0 {
            1int
        } else {
            0
        },
        y % 400 == 0 ==> y % 100 == 0,
{
}

/// One more year has one more leap day, or none.
proof fn lemma_leap_day(y: int)
    ensures
        leap_days(y) == leap_days(y - 1) + if is_leap(y) {
            1int
        } else {
            0
        },
{
    lemma_fourth_year(y);
    lemma_hundredth_year(y);
    lemma_four_hundredth_year(y);
}

/// Whether a year of an era has a leap day.
proof fn lemma_is_leap(era: int, yoe: int)
    ensures
        is_leap(400 * era + yoe) == is_leap(yoe),
{
    let y = 400 * era + yoe;
    assert(y % 4 == yoe % 4);
    assert(y % 100 == yoe % 100);
    assert(y % 400 == yoe % 400);
}

/// The leap days of a year in an era.
proof fn lemma_leap_days(era: int, yoe: int)
    requires
        0 <= yoe < 400,
    ensures
        leap_days(400 * era + yoe) == 97 * era + yoe / 4 - yoe / 100,
{
    let y = 400 * era + yoe;
    assert(y / 4 == 100 * era + yoe / 4);
    assert(y / 100 == 4 * era + yoe / 100);
    assert(y / 400 == era);
}

/// The month and the day of a place in a year that starts in March.
proof fn lemma_month_of_year(doy: int)
    requires
        0 <= doy <= 365,
    ensures
        ({
            let mp = (5 * doy + 2) / 153;
            let d = doy - (153 * mp + 2) / 5 + 1;
            &&& 0 <= mp <= 11
            &&& 1 <= d
            &&& mp < 10 ==> d <= month_days(1, mp + 3)
            &&& mp == 10 ==> d <= 31
            &&& mp == 11 ==> d <= 29
            &&& mp == 11 && d == 29 ==> doy == 365
        }),
{
}

/// The date of a day, counted in eras, years from March and days.
proof fn lemma_date(era: int, yoe: int, doy: int)
    requires
        0 <= yoe < 400,
        0 <= doy <= 365,
        doy == 365 ==> is_leap(yoe + 1),
    ensures
        ({
            let mp = (5 * doy + 2) / 153;
            let d = doy - (153 * mp + 2) / 5 + 1;
            let m = if mp < 10 {
                mp + 3
            } else {
                mp - 9
            };
            let y = 400 * era + yoe + if m <= 2 {
                1int
            } else {
                0
            };
            &&& is_date(y, m, d)
            &&& days_of(y, m, d) == 146_097 * era + 365 * yoe + yoe / 4 - yoe / 100 + doy - 719_468
        }),
{
    let mp = (5 * doy + 2) / 153;
    let march = 400 * era + yoe;
    lemma_month_of_year(doy);
    lemma_leap_days(era, yoe);
    if mp < 10 {
        lemma_leap_day(march);
        lemma_days_before_month(march, mp + 3);
    } else {
        lemma_is_leap(era, yoe + 1);
        lemma_days_before_month(march + 1, mp - 9);
    }
}

/// Days since the Unix epoch to a calendar date: year, month and day.
pub fn civil_from_days(days: i64) -> (r: (i64, i64, i64))
    requires
        days <= i64::MAX - 719_468,
    ensures
        is_date(r.0 as int, r.1 as int, r.2 as int),
        days_of(r.0 as int, r.1 as int, r.2 as int) == days,
{
    let z: i64 = days + 719_468;
    let era: i64 = match z.checked_div_euclid(146_097) {
        Some(e) => e,
        None => 0,
    };
    let doe: u64 = match z.checked_rem_euclid(146_097) {
        Some(d) => d as u64,
        None => 0,
    };
    proof {
        lemma_year_of_era(doe as int);
    }
    let yoe: u64 = (doe - doe / 1460 + doe / 36_524 - doe / 146_096) / 365;
    let y: i64 = yoe as i64 + era * 400;
    let doy: u64 = doe - (365 * yoe + yoe / 4 - yoe / 100);
    proof {
        lemma_month_of_year(doy as int);
        lemma_date(era as int, yoe as int, doy as int);
    }
    let mp: u64 = (5 * doy + 2) / 153;
    let d: u64 = doy - (153 * mp + 2) / 5 + 1;
    let m: u64 = if mp < 10 {
        mp + 3
    } else {
        mp - 9
    };
    let year: i64 = if m <= 2 {
        y + 1
    } else {
        y
    };
    (year, m as i64, d as i64)
}

/// `YYYY-MM-DD`: the year in four digits or as many as it takes.
pub open spec fn stamp(y: nat, m: nat, d: nat) -> Seq<char> {
    zero_padded(y, 4) + "-"@ + zero_padded(m, 2) + "-"@ + zero_padded(d, 2)
}

/// A stamp reads as its date: up to the year 9999 four digits, a dash, two digits,
/// a dash and two digits, which write the year, the month and the day.
pub proof fn law_a_stamp_reads_as_its_date(y: nat, m: nat, d: nat)
    requires
        y < 10_000,
        is_date(y as int, m as int, d as int),
    ensures
        stamp(y, m, d).len() == 10,
        stamp(y, m, d)[4] == '-' && stamp(y, m, d)[7] == '-',
        decimal_value(stamp(y, m, d).subrange(0, 4)) == Some(y),
        decimal_value(stamp(y, m, d).subrange(5, 7)) == Some(m),
        decimal_value(stamp(y, m, d).subrange(8, 10)) == Some(d),
{
    reveal_strlit("-");
    law_numbers_read_back(y, 4);
    law_numbers_read_back(m, 2);
    law_numbers_read_back(d, 2);
    lemma_decimal_width(y);
    lemma_decimal_width(m);
    lemma_decimal_width(d);
    let s = stamp(y, m, d);
    assert(s.subrange(0, 4) == zero_padded(y, 4));
    assert(s.subrange(5, 7) == zero_padded(m, 2));
    assert(s.subrange(8, 10) == zero_padded(d, 2));
}

/// The date of the next day is the next date: a day later in the month, or the
/// first of the next month, or of the next year.
#[verifier::spinoff_prover]
pub proof fn law_days_follow_each_other(y: int, m: int, d: int)
    requires
        is_date(y, m, d),
    ensures
        d < month_days(y, m) ==> is_date(y, m, d + 1) && days_of(y, m, d + 1) == days_of(y, m, d) + 1,
        d == month_days(y, m) && m < 12 ==> is_date(y, m + 1, 1) && days_of(y, m + 1, 1) == days_of(
            y,
            m,
            d,
        ) + 1,
        d == month_days(y, m) && m == 12 ==> is_date(y + 1, 1, 1) && days_of(y + 1, 1, 1) == days_of(
            y,
            m,
            d,
        ) + 1,
        days_of(1970, 1, 1) == 0,
{
    law_years_follow_each_other(y);
    law_years_follow_each_other(1970);
    lemma_days_before_month(y, m);
    lemma_days_before_month(y, m + 1);
    lemma_days_before_month(y, 13);
    lemma_days_before_month(y + 1, 1);
    lemma_days_before_month(1970, 1);
}

/// Thirty days have April, June, September and November; February has 28, or 29
/// in every fourth year but not in every hundredth, unless in every four hundredth.
pub proof fn law_months_have_these_days(y: int, m: int)
    requires
        1 <= m <= 12,
    ensures
        m == 4 || m == 6 || m == 9 || m == 11 ==> month_days(y, m) == 30,
        m != 2 && m != 4 && m != 6 && m != 9 && m != 11 ==> month_days(y, m) == 31,
        m == 2 && y % 4 != 0 ==> month_days(y, m) == 28,
        m == 2 && y % 4 == 0 && y % 100 != 0 ==> month_days(y, m) == 29,
        m == 2 && y % 100 == 0 && y % 400 != 0 ==> month_days(y, m) == 28,
        m == 2 && y % 4 == 0 && y % 400 == 0 ==> month_days(y, m) == 29,
{
}

/// `YYYY-MM-DD` for a moment in seconds since the Unix epoch.
pub fn chrono_stamp(secs: u64) -> (r: String)
    ensures
        exists|y: nat, m: nat, d: nat|
            is_date(y as int, m as int, d as int) && days_of(y as int, m as int, d as int) == secs
                / 86_400 && r@ == #[trigger] stamp(y, m, d),
{
    let (y, m, d): (i64, i64, i64) = civil_from_days((secs / 86_400) as i64);
    proof {
        if y < 1970 {
            lemma_earlier((y as int, m as int, d as int), (1970, 1, 1));
            law_years_follow_each_other(1970);
            reveal_with_fuel(days_before_month, 2);
        }
    }
    let mut s: Vec<char> = zero_padded_of(y as u64, 4);
    append_str(&mut s, "-");
    append(&mut s, zero_padded_of(m as u64, 2).as_slice());
    append_str(&mut s, "-");
    append(&mut s, zero_padded_of(d as u64, 2).as_slice());
    assert(s@ == stamp(y as nat, m as nat, d as nat));
    string_of(s.as_slice())
}

/// The file name that an export of the history is offered under.
pub fn export_file_name(secs: u64) -> (r: String)
    ensures
        exists|y: nat, m: nat, d: nat|
            is_date(y as int, m as int, d as int) && days_of(y as int, m as int, d as int) == secs
                / 86_400 && r@ == "cooee-history-"@ + #[trigger] stamp(y, m, d) + ".json"@,
{
    let mut name: Vec<char> = chars_of("cooee-history-");
    append_str(&mut name, chrono_stamp(secs).as_str());
    append_str(&mut name, ".json");
    string_of(name.as_slice())
}

} // verus!

//! Dates of the proleptic Gregorian calendar.

use vstd::arithmetic::div_mod::{lemma_fundamental_div_mod, lemma_fundamental_div_mod_converse};
use vstd::prelude::*;

verus! {

/// A leap year.
pub open spec fn leap(y: int) -> bool {
    y % 4 == 0 && (y % 100 != 0 || y % 400 == 0)
}

/// Days of a month.
pub open spec fn month_len(y: int, m: int) -> int {
    if m == 2 {
        if leap(y) {
            29
        } else {
            28
        }
    } else if m == 4 || m == 6 || m == 9 || m == 11 {
        30
    } else {
        31
    }
}

/// A date that exists.
pub open spec fn valid_date(y: int, m: int, d: int) -> bool {
    1 <= m <= 12 && 1 <= d <= month_len(y, m)
}

/// Days from the start of year 0 to the start of year `y`: 365 a year, and one
/// for every leap year.
pub open spec fn before_year(y: int) -> int {
    365 * y + (y + 3) / 4 - (y + 99) / 100 + (y + 399) / 400
}

/// Days of the year before month `m`.
pub open spec fn before_month(y: int, m: int) -> int
    decreases m,
{
    if m <= 1 {
        0
    } else {
        before_month(y, m - 1) + month_len(y, m - 1)
    }
}

/// Days from 1970-01-01 to a date.
pub open spec fn day_number(y: int, m: int, d: int) -> int {
    before_year(y) + before_month(y, m) + d - 1 - 719_528
}

/// Quotient and remainder of `n * q + r`.
proof fn lemma_div(x: int, n: int, q: int, r: int)
    requires
        x == q * n + r,
        0 <= r < n,
    ensures
        x / n == q,
        x % n == r,
{
    lemma_fundamental_div_mod_converse(x, n, q, r);
}

/// One more multiple of `n` has been passed after `y` exactly if `y` is one.
proof fn lemma_multiples(y: int, n: int)
    requires
        n > 1,
    ensures
        (y + n) / n - (y + n - 1) / n == if y % n == 0 {
            1int
        } else {
            0
        },
{
    let q = y / n;
    let r = y % n;
    lemma_fundamental_div_mod(y, n);
    assert(y == q * n + r) by (nonlinear_arith)
        requires
            y == n * q + r,
    ;
    assert((q + 1) * n == q * n + n) by (nonlinear_arith);
    lemma_div(y + n, n, q + 1, r);
    if r == 0 {
        lemma_div(y + n - 1, n, q, n - 1);
    } else {
        lemma_div(y + n - 1, n, q + 1, r - 1);
    }
}

/// Multiples of 400 are multiples of 100, and those are multiples of 4.
proof fn lemma_centuries(y: int)
    ensures
        y % 400 == 0 ==> y % 100 == 0,
        y % 100 == 0 ==> y % 4 == 0,
{
    if y % 400 == 0 {
        lemma_div(y, 100, 4 * (y / 400), 0);
    }
    if y % 100 == 0 {
        lemma_div(y, 4, 25 * (y / 100), 0);
    }
}

/// A year has 366 days if it is a leap year, else 365.
pub proof fn law_year_len(y: int)
    ensures
        before_year(y + 1) - before_year(y) == if leap(y) {
            366int
        } else {
            365
        },
{
    lemma_multiples(y, 4);
    lemma_multiples(y, 100);
    lemma_multiples(y, 400);
    lemma_centuries(y);
}

/// The months of a year, counted from its start.
proof fn lemma_months(y: int)
    ensures
        ({
            let k: int = if leap(y) { 1 } else { 0 };
            &&& before_month(y, 1) == 0
            &&& before_month(y, 2) == 31
            &&& before_month(y, 3) == 59 + k
            &&& before_month(y, 4) == 90 + k
            &&& before_month(y, 5) == 120 + k
            &&& before_month(y, 6) == 151 + k
            &&& before_month(y, 7) == 181 + k
            &&& before_month(y, 8) == 212 + k
            &&& before_month(y, 9) == 243 + k
            &&& before_month(y, 10) == 273 + k
            &&& before_month(y, 11) == 304 + k
            &&& before_month(y, 12) == 334 + k
        }),
{
    reveal_with_fuel(before_month, 12);
}

/// Later dates have larger numbers: a number stands for one date only.
pub proof fn law_dates_ascend(y1: int, m1: int, d1: int, y2: int, m2: int, d2: int)
    requires
        valid_date(y1, m1, d1),
        valid_date(y2, m2, d2),
        y1 < y2 || (y1 == y2 && (m1 < m2 || (m1 == m2 && d1 < d2))),
    ensures
        day_number(y1, m1, d1) < day_number(y2, m2, d2),
{
    lemma_months(y1);
    lemma_months(y2);
    if y1 < y2 {
        lemma_years(y1, y2);
    }
}

proof fn lemma_years(y1: int, y2: int)
    requires
        y1 < y2,
    ensures
        before_year(y2) - before_year(y1) >= if leap(y1) {
            366int
        } else {
            365
        },
    decreases y2 - y1,
{
    law_year_len(y1);
    if y1 + 1 < y2 {
        lemma_years(y1 + 1, y2);
    }
}

/// The era of a day, and the day of the era. An era is 400 years.
fn era_of(day: i64) -> (r: (i64, i64))
    requires
        day > i64::MIN + 146_097,
    ensures
        day == r.0 * 146_097 + r.1,
        0 <= r.1 < 146_097,
        day >= 0 ==> r.0 >= 0,
        -70_000_000_000_000 <= r.0 <= 70_000_000_000_000,
{
    let era: i64 = if day >= 0 {
        day / 146_097
    } else {
        -((146_096 - day) / 146_097)
    };
    proof {
        if day < 0 {
            lemma_fundamental_div_mod(146_096 - day, 146_097);
        }
    }
    (era, day - era * 146_097)
}

/// The century of an era's day, the group of four years in it, the year of the
/// group, and the day of the year.
fn year_of(doe: i64) -> (r: (i64, i64, i64, i64))
    requires
        0 <= doe < 146_097,
    ensures
        doe == r.0 * 36_524 + r.1 * 1_461 + r.2 * 365 + r.3,
        0 <= r.0 <= 3,
        0 <= r.1 <= 24,
        0 <= r.2 <= 3,
        0 <= r.3 <= 365,
        r.3 == 365 ==> r.2 == 3 && (r.1 < 24 || r.0 == 3),
{
    let century: i64 = if doe / 36_524 < 3 {
        doe / 36_524
    } else {
        3
    };
    let doc: i64 = doe - century * 36_524;
    assert(0 <= doc <= 36_524 && (doc == 36_524 ==> century == 3));
    let four: i64 = doc / 1_461;
    let dof: i64 = doc - four * 1_461;
    assert(0 <= dof <= 1_460 && 0 <= four <= 24);
    let one: i64 = if dof / 365 < 3 {
        dof / 365
    } else {
        3
    };
    (century, four, one, dof - one * 365)
}

/// The date `z` days after 1970-01-01, as year, month and day.
pub fn civil_from_days(z: i64) -> (r: (i64, u32, u32))
    requires
        z <= i64::MAX - 719_468,
        z >= i64::MIN + 719_468,
    ensures
        valid_date(r.0 as int, r.1 as int, r.2 as int),
        day_number(r.0 as int, r.1 as int, r.2 as int) == z,
{
    // Years that start in March put the leap day last.
    let (era, doe) = era_of(z + 719_468);
    let (century, four, one, doy) = year_of(doe);
    let mp: i64 = (5 * doy + 2) / 153;
    let d: i64 = doy - (153 * mp + 2) / 5 + 1;
    proof {
        lemma_month_of(doy as int, mp as int, d as int);
    }
    let m: i64 = if mp < 10 {
        mp + 3
    } else {
        mp - 9
    };
    let march: i64 = era * 400 + century * 100 + four * 4 + one;
    let y: i64 = if m <= 2 {
        march + 1
    } else {
        march
    };
    proof {
        lemma_back(
            era as int,
            century as int,
            four as int,
            one as int,
            doy as int,
            mp as int,
            d as int,
        );
    }
    (y, m as u32, d as u32)
}

/// The date that a day of a year that starts in March is.
proof fn lemma_back(era: int, century: int, four: int, one: int, doy: int, mp: int, d: int)
    requires
        0 <= century <= 3,
        0 <= four <= 24,
        0 <= one <= 3,
        0 <= doy <= 365,
        doy == 365 ==> one == 3 && (four < 24 || century == 3),
        mp == (5 * doy + 2) / 153,
        d == doy - (153 * mp + 2) / 5 + 1,
    ensures
        ({
            let march = era * 400 + century * 100 + four * 4 + one;
            let m = if mp < 10 { mp + 3 } else { mp - 9 };
            let y = if m <= 2 { march + 1 } else { march };
            &&& valid_date(y, m, d)
            &&& day_number(y, m, d) == era * 146_097 + century * 36_524 + four * 1_461 + one * 365
                + doy - 719_468
        }),
{
    let march = era * 400 + century * 100 + four * 4 + one;
    lemma_month_of(doy, mp, d);
    lemma_march(era, century, four, one);
    if mp < 10 {
        lemma_months(march);
    } else {
        lemma_months(march + 1);
    }
}

/// The parts of the year `400 * era + 100 * century + 4 * four + one`.
proof fn lemma_parts(era: int, century: int, four: int, one: int)
    requires
        0 <= century <= 3,
        0 <= four <= 24,
        0 <= one <= 3,
    ensures
        ({
            let y = era * 400 + century * 100 + four * 4 + one;
            let odd: int = if one > 0 { 1 } else { 0 };
            let late: int = if four > 0 || one > 0 { 1 } else { 0 };
            let old: int = if century > 0 || four > 0 || one > 0 { 1 } else { 0 };
            &&& y % 4 == one
            &&& y % 100 == four * 4 + one
            &&& y % 400 == century * 100 + four * 4 + one
            &&& (y + 3) / 4 == era * 100 + century * 25 + four + odd
            &&& (y + 99) / 100 == era * 4 + century + late
            &&& (y + 399) / 400 == era + old
        }),
{
    let y = era * 400 + century * 100 + four * 4 + one;
    let small = four * 4 + one;
    let k = century * 100 + small;
    lemma_div(y, 4, era * 100 + century * 25 + four, one);
    lemma_div(y, 100, era * 4 + century, small);
    lemma_div(y, 400, era, k);
    if one > 0 {
        lemma_div(y + 3, 4, era * 100 + century * 25 + four + 1, one - 1);
    } else {
        lemma_div(y + 3, 4, era * 100 + century * 25 + four, 3);
    }
    if small > 0 {
        lemma_div(y + 99, 100, era * 4 + century + 1, small - 1);
    } else {
        lemma_div(y + 99, 100, era * 4 + century, 99);
    }
    if k > 0 {
        lemma_div(y + 399, 400, era + 1, k - 1);
    } else {
        lemma_div(y + 399, 400, era, 399);
    }
}

/// Where a year that starts in March starts, and whether it ends in a leap day.
proof fn lemma_march(era: int, century: int, four: int, one: int)
    requires
        0 <= century <= 3,
        0 <= four <= 24,
        0 <= one <= 3,
    ensures
        ({
            let y = era * 400 + century * 100 + four * 4 + one;
            let from = era * 146_097 + century * 36_524 + four * 1_461 + one * 365;
            let k: int = if leap(y) { 1 } else { 0 };
            &&& before_year(y) + 59 + k == from + 60
            &&& before_year(y + 1) == from + 366
            &&& leap(y + 1) <==> (one == 3 && (four < 24 || century == 3))
        }),
{
    let y = era * 400 + century * 100 + four * 4 + one;
    lemma_parts(era, century, four, one);
    law_year_len(y);
    if one < 3 {
        lemma_parts(era, century, four, one + 1);
    } else if four < 24 {
        lemma_parts(era, century, four + 1, 0);
    } else if century < 3 {
        lemma_parts(era, century + 1, 0, 0);
    } else {
        lemma_parts(era + 1, 0, 0, 0);
    }
}

/// The month and the day of day `doy` of a year that starts in March.
proof fn lemma_month_of(doy: int, mp: int, d: int)
    requires
        0 <= doy <= 365,
        mp == (5 * doy + 2) / 153,
        d == doy - (153 * mp + 2) / 5 + 1,
    ensures
        0 <= mp <= 11,
        ({
            let from: int = if mp == 0 { 0 } else if mp == 1 { 31 } else if mp == 2 { 61 } else if mp
                == 3 { 92 } else if mp == 4 { 122 } else if mp == 5 { 153 } else if mp == 6 {
                184
            } else if mp == 7 { 214 } else if mp == 8 { 245 } else if mp == 9 { 275 } else if mp
                == 10 { 306 } else { 337 };
            let len: int = if mp == 1 || mp == 3 || mp == 6 || mp == 8 { 30 } else if mp == 11 {
                29
            } else { 31 };
            &&& d == doy - from + 1
            &&& 1 <= d <= len
            &&& mp == 11 && doy < 365 ==> d <= 28
        }),
{
}

/// Days from 1970-01-01 to a date.
pub fn days_from_civil(y: i64, m: u32, d: u32) -> (r: i64)
    requires
        -20_000_000_000_000_000 <= y <= 20_000_000_000_000_000,
        valid_date(y as int, m as int, d as int),
    ensures
        r == day_number(y as int, m as int, d as int),
{
    let march: i64 = if m <= 2 {
        y - 1
    } else {
        y
    };
    let era: i64 = if march >= 0 {
        march / 400
    } else {
        -((399 - march) / 400)
    };
    let yoe: i64 = march - era * 400;
    assert(0 <= yoe < 400);
    let mp: i64 = if m > 2 {
        m as i64 - 3
    } else {
        m as i64 + 9
    };
    let doy: i64 = (153 * mp + 2) / 5 + d as i64 - 1;
    let doe: i64 = yoe * 365 + yoe / 4 - yoe / 100 + doy;
    proof {
        lemma_months(y as int);
        let century = yoe as int / 100;
        let four = (yoe as int % 100) / 4;
        let one = (yoe as int % 100) % 4;
        lemma_div(yoe as int, 4, century * 25 + four, one);
        lemma_march(era as int, century, four, one);
    }
    era * 146_097 + doe - 719_468
}

/// The date of a day, as year, month and day.
pub open spec fn date_of(day: int) -> (int, int, int) {
    choose|t: (int, int, int)| is_date_of(t, day)
}

/// `t` is the date of `day`.
pub open spec fn is_date_of(t: (int, int, int), day: int) -> bool {
    valid_date(t.0, t.1, t.2) && day_number(t.0, t.1, t.2) == day
}

/// A day has one date.
pub proof fn law_one_date(t: (int, int, int), day: int)
    requires
        is_date_of(t, day),
    ensures
        date_of(day) == t,
{
    let u = date_of(day);
    assert(is_date_of(u, day));
    if u != t {
        if t.0 < u.0 || (t.0 == u.0 && (t.1 < u.1 || (t.1 == u.1 && t.2 < u.2))) {
            law_dates_ascend(t.0, t.1, t.2, u.0, u.1, u.2);
        } else {
            law_dates_ascend(u.0, u.1, u.2, t.0, t.1, t.2);
        }
    }
}

proof fn lemma_year_bound(y: int)
    requires
        y >= 0,
    ensures
        before_year(y) >= 365 * y,
    decreases y,
{
    if y > 0 {
        law_year_len(y - 1);
        lemma_year_bound(y - 1);
    }
}

/// The first day of the month of `day`.
pub open spec fn month_start(day: int) -> int {
    day_number(date_of(day).0, date_of(day).1, 1)
}

/// A month starts on or before each of its days, and not before the epoch for
/// days that are not.
pub proof fn law_month_start(t: (int, int, int), day: int)
    requires
        is_date_of(t, day),
    ensures
        month_start(day) <= day,
        day - month_start(day) == t.2 - 1,
        day >= 0 ==> month_start(day) >= 0,
{
    law_one_date(t, day);
    if day >= 0 {
        lemma_months(1970);
        assert(day_number(1970, 1, 1) == 0);
        if t.0 < 1970 {
            law_dates_ascend(t.0, t.1, t.2, 1970, 1, 1);
        } else if t.0 > 1970 || t.1 > 1 {
            law_dates_ascend(1970, 1, 1, t.0, t.1, 1);
        }
    }
}

/// A day that is not before the epoch is in a year that is not before 1970.
pub proof fn law_not_before_epoch(t: (int, int, int), day: int)
    requires
        is_date_of(t, day),
        day >= 0,
    ensures
        t.0 >= 1970,
{
    if t.0 < 1970 {
        lemma_months(1970);
        law_dates_ascend(t.0, t.1, t.2, 1970, 1, 1);
    }
}

/// Number of the first day of the month of day `day` after the epoch.
pub fn first_of_month(day: u64) -> (r: u64)
    requires
        day <= 1_000_000_000_000_000,
    ensures
        r == month_start(day as int),
        r <= day,
{
    let (y, m, d) = civil_from_days(day as i64);
    let ghost t = (y as int, m as int, d as int);
    proof {
        law_one_date(t, day as int);
        law_month_start(t, day as int);
        if y >= 0 {
            lemma_year_bound(y as int);
            lemma_months(y as int);
        } else {
            lemma_months(1970);
            law_dates_ascend(t.0, t.1, t.2, 1970, 1, 1);
        }
    }
    days_from_civil(y, m, 1) as u64
}

} // verus!

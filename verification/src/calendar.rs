//! The proleptic Gregorian calendar: validity of dates, Julian Day Numbers,
//! and the order of dates.

use vstd::prelude::*;

verus! {

/// A Gregorian leap year: divisible by 4, except centuries not divisible by 400.
pub open spec fn is_leap_year(y: int) -> bool {
    (y % 4 == 0 && y % 100 != 0) || y % 400 == 0
}

/// The number of days of month `m` (1 to 12) of year `y`.
pub open spec fn days_in_month(y: int, m: int) -> int {
    if m == 2 {
        if is_leap_year(y) { 29 } else { 28 }
    } else if m == 4 || m == 6 || m == 9 || m == 11 {
        30
    } else {
        31
    }
}

/// `(y, m, d)` names a day of the proleptic Gregorian calendar.
pub open spec fn is_valid_date(y: int, m: int, d: int) -> bool {
    1 <= m <= 12 && 1 <= d <= days_in_month(y, m)
}

/// Integer division rounding toward zero, as Rust's `/` does on signed integers.
pub open spec fn trunc_div(a: int, b: int) -> int {
    if a >= 0 { a / b } else { -((-a) / b) }
}

/// The Julian Day Number of `(y, m, d)`. The month terms divide as Rust's `/`
/// does (toward zero), which only matters for months outside 1 to 12; the
/// year terms divide rounding down, so day numbers stay consecutive in every year.
pub open spec fn julian_day(y: int, m: int, d: int) -> int {
    let a = trunc_div(14 - m, 12);
    let yr = y + 4800 - a;
    let mo = m + 12 * a - 3;
    d + trunc_div(153 * mo + 2, 5) + 365 * yr + yr / 4 - yr / 100 + yr / 400 - 32045
}

/// The calendar day after `(y, m, d)`.
pub open spec fn next_day(y: int, m: int, d: int) -> (int, int, int) {
    if d < days_in_month(y, m) {
        (y, m, d + 1)
    } else if m < 12 {
        (y, m + 1, 1)
    } else {
        (y + 1, 1, 1)
    }
}

proof fn lemma_div_succ(x: int, k: int)
    requires
        k > 0,
    ensures
        (x + 1) / k == x / k + (if (x + 1) % k == 0 { 1int } else { 0int }),
{
    vstd::arithmetic::div_mod::lemma_fundamental_div_mod(x, k);
    vstd::arithmetic::div_mod::lemma_fundamental_div_mod(x + 1, k);
    vstd::arithmetic::div_mod::lemma_mod_bound(x, k);
    vstd::arithmetic::div_mod::lemma_mod_bound(x + 1, k);
    assert((x + 1) / k == x / k + (if (x + 1) % k == 0 { 1int } else { 0int })) by (nonlinear_arith)
        requires
            k > 0,
            x == k * (x / k) + x % k,
            x + 1 == k * ((x + 1) / k) + (x + 1) % k,
            0 <= x % k < k,
            0 <= (x + 1) % k < k,
    ;
}

/// Consecutive calendar days have consecutive Julian Day Numbers, so the
/// difference of two day numbers is the count of days between the dates.
pub proof fn lemma_julian_day_next(y: int, m: int, d: int)
    requires
        is_valid_date(y, m, d),
    ensures
        is_valid_date(next_day(y, m, d).0, next_day(y, m, d).1, next_day(y, m, d).2),
        julian_day(next_day(y, m, d).0, next_day(y, m, d).1, next_day(y, m, d).2)
            == julian_day(y, m, d) + 1,
{
    let x = y + 4799;
    lemma_div_succ(x, 4);
    lemma_div_succ(x, 100);
    lemma_div_succ(x, 400);
    assert((x + 1) % 4 == 0 <==> y % 4 == 0);
    assert((x + 1) % 100 == 0 <==> y % 100 == 0);
    assert((x + 1) % 400 == 0 <==> y % 400 == 0);
}


/// `(y1, m1, d1)` comes strictly before `(y2, m2, d2)` in year, month, day order.
pub open spec fn date_before(y1: int, m1: int, d1: int, y2: int, m2: int, d2: int) -> bool {
    y1 < y2 || (y1 == y2 && (m1 < m2 || (m1 == m2 && d1 < d2)))
}

/// The date written as the integer `YYYYMMDD` (for instance 20251225).
pub open spec fn ymd_number(y: int, m: int, d: int) -> int {
    y * 10000 + m * 100 + d
}

proof fn lemma_julian_day_later_month(y: int, m1: int, d1: int, m2: int, d2: int)
    requires
        is_valid_date(y, m1, d1),
        is_valid_date(y, m2, d2),
        m1 < m2,
    ensures
        julian_day(y, m1, d1) < julian_day(y, m2, d2),
    decreases m2 - m1,
{
    let last = days_in_month(y, m1);
    lemma_julian_day_next(y, m1, last);
    if m1 + 1 < m2 {
        lemma_julian_day_later_month(y, m1 + 1, 1, m2, d2);
    }
}

proof fn lemma_julian_day_later_year(y1: int, m1: int, d1: int, y2: int, m2: int, d2: int)
    requires
        is_valid_date(y1, m1, d1),
        is_valid_date(y2, m2, d2),
        y1 < y2,
    ensures
        julian_day(y1, m1, d1) < julian_day(y2, m2, d2),
    decreases y2 - y1,
{
    if m1 < 12 {
        lemma_julian_day_later_month(y1, m1, d1, 12, 31);
    }
    lemma_julian_day_next(y1, 12, 31);
    if y1 + 1 < y2 {
        lemma_julian_day_later_year(y1 + 1, 1, 1, y2, m2, d2);
    } else if m2 > 1 {
        lemma_julian_day_later_month(y2, 1, 1, m2, d2);
    }
}

/// On valid dates the Julian Day Number is strictly increasing in calendar
/// order, so comparing day numbers compares dates.
pub proof fn lemma_julian_day_order(y1: int, m1: int, d1: int, y2: int, m2: int, d2: int)
    requires
        is_valid_date(y1, m1, d1),
        is_valid_date(y2, m2, d2),
    ensures
        (julian_day(y1, m1, d1) < julian_day(y2, m2, d2)) == date_before(y1, m1, d1, y2, m2, d2),
        (julian_day(y1, m1, d1) == julian_day(y2, m2, d2)) == (y1 == y2 && m1 == m2 && d1 == d2),
{
    if y1 < y2 {
        lemma_julian_day_later_year(y1, m1, d1, y2, m2, d2);
    } else if y2 < y1 {
        lemma_julian_day_later_year(y2, m2, d2, y1, m1, d1);
    } else if m1 < m2 {
        lemma_julian_day_later_month(y1, m1, d1, m2, d2);
    } else if m2 < m1 {
        lemma_julian_day_later_month(y1, m2, d2, m1, d1);
    }
}

/// On valid dates, comparing the integers `YYYYMMDD` compares the dates.
pub proof fn lemma_ymd_number_order(y1: int, m1: int, d1: int, y2: int, m2: int, d2: int)
    requires
        is_valid_date(y1, m1, d1),
        is_valid_date(y2, m2, d2),
    ensures
        (ymd_number(y1, m1, d1) < ymd_number(y2, m2, d2)) == date_before(y1, m1, d1, y2, m2, d2),
        (ymd_number(y1, m1, d1) == ymd_number(y2, m2, d2)) == (y1 == y2 && m1 == m2 && d1 == d2),
{
    if y1 < y2 {
        assert(y1 * 10000 + 10000 <= y2 * 10000);
    } else if y2 < y1 {
        assert(y2 * 10000 + 10000 <= y1 * 10000);
    } else if m1 < m2 {
        assert(m1 * 100 + 100 <= m2 * 100);
    } else if m2 < m1 {
        assert(m2 * 100 + 100 <= m1 * 100);
    }
}


/// The integer fits in an `i64`.
pub open spec fn fits_i64(x: int) -> bool {
    i64::MIN <= x <= i64::MAX
}

/// Every step of the day-number formula, evaluated left to right on `i64`s,
/// stays within `i64`.
pub open spec fn day_formula_fits(y: int, m: int, d: int) -> bool {
    let a = trunc_div(14 - m, 12);
    let yr = y + 4800 - a;
    let mo = m + 12 * a - 3;
    let q = trunc_div(153 * mo + 2, 5);
    let s1 = d + q + 365 * yr;
    let s2 = s1 + yr / 4;
    let s3 = s2 - yr / 100;
    let s4 = s3 + yr / 400;
    &&& fits_i64(14 - m)
    &&& fits_i64(y + 4800)
    &&& fits_i64(yr)
    &&& fits_i64(12 * a)
    &&& fits_i64(m + 12 * a)
    &&& fits_i64(mo)
    &&& fits_i64(153 * mo)
    &&& fits_i64(153 * mo + 2)
    &&& fits_i64(d + q)
    &&& fits_i64(365 * yr)
    &&& fits_i64(s1)
    &&& fits_i64(s2)
    &&& fits_i64(s3)
    &&& fits_i64(s4)
    &&& fits_i64(s4 - 32045)
}

/// Small operands, such as those of any 8-character key, fit the formula.
pub proof fn lemma_small_day_formula_fits(y: int, m: int, d: int)
    requires
        -1_000_000_000 <= y <= 1_000_000_000,
        -1_000_000_000 <= m <= 1_000_000_000,
        -1_000_000_000 <= d <= 1_000_000_000,
    ensures
        day_formula_fits(y, m, d),
{
}

/// Division of `a` by a positive `b`, rounding down.
fn floor_div(a: i64, b: i64) -> (r: i64)
    requires
        b > 0,
    ensures
        r == a as int / b as int,
{
    if a >= 0 {
        a / b
    } else {
        let q = (-1 - a) / b;
        proof {
            let n = -1 - a;
            vstd::arithmetic::div_mod::lemma_fundamental_div_mod(n as int, b as int);
            vstd::arithmetic::div_mod::lemma_mod_bound(n as int, b as int);
            vstd::arithmetic::div_mod::lemma_fundamental_div_mod(a as int, b as int);
            vstd::arithmetic::div_mod::lemma_mod_bound(a as int, b as int);
            let qa = a as int / b as int;
            let ra = a as int % b as int;
            let qn = n as int / b as int;
            let rn = n as int % b as int;
            assert(qa == -qn - 1) by (nonlinear_arith)
                requires
                    b > 0,
                    n == -1 - a,
                    a == b * qa + ra,
                    n == b * qn + rn,
                    0 <= ra < b,
                    0 <= rn < b,
            ;
        }
        -q - 1
    }
}

/// Converts a Gregorian date to a Julian Day Number (absolute day count);
/// subtracting two such numbers gives the days between the dates.
pub fn to_julian_day(y: i64, m: i64, d: i64) -> (r: i64)
    requires
        day_formula_fits(y as int, m as int, d as int),
    ensures
        r == julian_day(y as int, m as int, d as int),
{
    let a = (14 - m) / 12;
    let yr = y + 4800 - a;
    let mo = m + 12 * a - 3;
    d + (153 * mo + 2) / 5 + 365 * yr + floor_div(yr, 4) - floor_div(yr, 100) + floor_div(
        yr,
        400,
    ) - 32045
}

} // verus!

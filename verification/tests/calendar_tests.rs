use countdown::calendar::to_julian_day;

#[test]
fn julian_day_of_known_dates() {
    assert_eq!(to_julian_day(2000, 1, 1), 2451545);
    assert_eq!(to_julian_day(1970, 1, 1), 2440588);
    assert_eq!(to_julian_day(2024, 2, 29), 2460370);
}

#[test]
fn consecutive_days_have_consecutive_numbers() {
    assert_eq!(to_julian_day(2024, 3, 1) - to_julian_day(2024, 2, 29), 1);
    assert_eq!(to_julian_day(2023, 3, 1) - to_julian_day(2023, 2, 28), 1);
    assert_eq!(to_julian_day(2026, 1, 1) - to_julian_day(2025, 12, 31), 1);
    assert_eq!(to_julian_day(1900, 3, 1) - to_julian_day(1900, 2, 28), 1);
}

#[test]
fn day_difference_counts_days() {
    assert_eq!(to_julian_day(2025, 12, 25) - to_julian_day(2025, 1, 1), 358);
    assert_eq!(to_julian_day(2026, 1, 1) - to_julian_day(2025, 1, 1), 365);
    assert_eq!(to_julian_day(2025, 1, 1) - to_julian_day(2024, 1, 1), 366);
}

#[test]
fn month_terms_divide_toward_zero() {
    // Month 0: (14 - 0) / 12 == 1.
    assert_eq!(to_julian_day(2025, 0, 1), to_julian_day(2024, 12, 1));
    // A month far out of range: (14 - 99) / 12 == -7, rounding toward zero.
    assert_eq!(to_julian_day(2025, 99, 1), 2463660);
    let a = (14i64 - 99) / 12;
    let yr = 2025 + 4800 - a;
    let mo = 99 + 12 * a - 3;
    let expected = 1 + (153 * mo + 2) / 5 + 365 * yr + yr / 4 - yr / 100 + yr / 400 - 32045;
    assert_eq!(to_julian_day(2025, 99, 1), expected);
}

#[test]
fn days_stay_consecutive_in_early_years() {
    assert_eq!(to_julian_day(-4800, 3, 1) - to_julian_day(-4800, 2, 29), 1);
    assert_eq!(to_julian_day(-10000, 1, 1) - to_julian_day(-10001, 12, 31), 1);
    assert_eq!(to_julian_day(-4713, 11, 24), 0);
}

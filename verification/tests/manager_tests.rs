use countdown::manager::{
    card_classes, chip_classes, create_outcome, date_status, days_until_text, delete_outcome,
    fetch_outcome, is_past_date, parse_ymd, parse_ymd_parts, today_number, validate_new_date,
    DayStatus, CURRENT_CARD, FUTURE_CHIP, PAST_CARD, PAST_CHIP, TODAY_CHIP,
};

#[test]
fn parts_of_a_key() {
    assert_eq!(parse_ymd_parts("20251225"), Some((2025, 12, 25)));
    assert_eq!(parse_ymd_parts("00010101"), Some((1, 1, 1)));
    assert_eq!(parse_ymd_parts("2025122"), None);
    assert_eq!(parse_ymd_parts("202512255"), None);
    assert_eq!(parse_ymd_parts("2025ab25"), None);
    assert_eq!(parse_ymd_parts("-123+1-1"), Some((-123, 1, -1)));
    assert_eq!(parse_ymd_parts("+999+1+1"), Some((999, 1, 1)));
    assert_eq!(parse_ymd_parts("20251 25"), None);
}

#[test]
fn whole_key_as_number() {
    assert_eq!(parse_ymd("20251225"), Some(20251225));
    assert_eq!(parse_ymd("-5"), Some(-5));
    assert_eq!(parse_ymd("+"), None);
    assert_eq!(parse_ymd(""), None);
    assert_eq!(parse_ymd("9223372036854775807"), Some(i64::MAX));
    assert_eq!(parse_ymd("-9223372036854775808"), Some(i64::MIN));
    assert_eq!(parse_ymd("9223372036854775808"), None);
    assert_eq!(parse_ymd("12a"), None);
}

#[test]
fn today_as_number() {
    assert_eq!(today_number(2025, 3, 7), 20250307);
}

#[test]
fn countdown_texts() {
    assert_eq!(days_until_text("20251225", 2025, 12, 20), "5 days");
    assert_eq!(days_until_text("20251225", 2025, 12, 25), "Today!");
    assert_eq!(days_until_text("20251225", 2025, 12, 26), "1 days ago");
    assert_eq!(days_until_text("20260101", 2025, 12, 31), "1 days");
    assert_eq!(days_until_text("2025", 2025, 12, 31), "—");
    assert_eq!(days_until_text("2025xx01", 2025, 12, 31), "—");
    assert_eq!(days_until_text("20240301", 2024, 2, 28), "2 days");
    assert_eq!(days_until_text("20259901", 2025, 12, 20), "2630 days");
}

#[test]
fn chip_and_past_flag() {
    assert_eq!(chip_classes("20251225", 20251224), FUTURE_CHIP);
    assert_eq!(chip_classes("20251225", 20251225), TODAY_CHIP);
    assert_eq!(chip_classes("20251225", 20251226), PAST_CHIP);
    assert_eq!(chip_classes("2025122", 20000101), PAST_CHIP);
    assert_eq!(chip_classes("abcdefgh", 20000101), PAST_CHIP);
    assert_eq!(date_status("20251225", 20251224), DayStatus::Future);
    assert!(is_past_date("20240101", 20250101));
    assert!(!is_past_date("20260101", 20250101));
    assert!(!is_past_date("2024011", 20250101));
    assert!(!is_past_date("abcdefgh", 20250101));
    assert_eq!(card_classes(true), PAST_CARD);
    assert_eq!(card_classes(false), CURRENT_CARD);
}

#[test]
fn chip_agrees_with_text_on_month_ends() {
    // 20250131 < 20250201 as numbers and as days.
    assert_eq!(chip_classes("20250201", today_number(2025, 1, 31)), FUTURE_CHIP);
    assert_eq!(days_until_text("20250201", 2025, 1, 31), "1 days");
    assert_eq!(chip_classes("20241231", today_number(2025, 1, 1)), PAST_CHIP);
    assert_eq!(days_until_text("20241231", 2025, 1, 1), "1 days ago");
}

#[test]
fn new_date_checks() {
    assert_eq!(validate_new_date("", "x"), Err("Both fields are required.".to_string()));
    assert_eq!(validate_new_date("20251225", ""), Err("Both fields are required.".to_string()));
    assert_eq!(
        validate_new_date("2025122", "Xmas"),
        Err("Date key must be 8 digits (YYYYMMDD).".to_string())
    );
    assert_eq!(
        validate_new_date("2025122a", "Xmas"),
        Err("Date key must be 8 digits (YYYYMMDD).".to_string())
    );
    assert_eq!(validate_new_date("20251225", "Xmas"), Ok(()));
}

#[test]
fn answers_read_by_status() {
    assert_eq!(fetch_outcome(200), Ok(()));
    assert_eq!(fetch_outcome(503), Err("Unexpected server response (HTTP 503).".to_string()));
    assert_eq!(create_outcome(201), Ok(()));
    assert_eq!(create_outcome(200), Err("Could not add date (HTTP 200).".to_string()));
    assert_eq!(delete_outcome(204), Ok(()));
    assert_eq!(delete_outcome(404), Err("Could not delete date (HTTP 404).".to_string()));
}

#[test]
fn added_confirmation() {
    assert_eq!(countdown::manager::added_message("20251225"), "Added 20251225.");
}

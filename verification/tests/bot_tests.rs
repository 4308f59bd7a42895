use countdown::bot::{
    countdown_days, countdown_line, countdown_messages, days_until, days_until_on, media_message,
    Handler, Reply, DATE_KEY_FORMAT, HELP_REPLY, LOAD_ERROR_REPLY,
};
use countdown::clock::today;
use countdown::dates::DateTable;
use countdown::manager::days_until_text;

#[test]
fn counts_one_more_than_the_day_difference() {
    assert_eq!(countdown_days((2025, 12, 25), (2025, 12, 20)), Some(6));
    assert_eq!(countdown_days((2025, 12, 21), (2025, 12, 20)), Some(2));
    assert_eq!(countdown_days((2025, 12, 20), (2025, 12, 20)), None);
    assert_eq!(countdown_days((2025, 12, 19), (2025, 12, 20)), None);
    assert_eq!(countdown_days((2026, 1, 1), (2025, 12, 31)), Some(2));
}

#[test]
fn reads_keys_with_chrono() {
    assert_eq!(DATE_KEY_FORMAT, "%Y%m%d");
    assert_eq!(days_until_on("20251225", (2025, 12, 20)), Some(6));
    assert_eq!(days_until_on("20251225", (2025, 12, 25)), None);
    assert_eq!(days_until_on("2025xx25", (2025, 12, 20)), None);
    assert_eq!(days_until_on("20250230", (2025, 1, 1)), None);
    assert_eq!(days_until_on("20240229", (2024, 2, 1)), Some(29));
}

#[test]
fn days_until_now() {
    assert_eq!(days_until("19990101"), None);
    assert_eq!(days_until("not a date"), None);
    let t = today();
    let key = format!("{:04}{:02}{:02}", t.0 + 1, t.1, 1);
    assert!(days_until(&key).unwrap() >= 300);
}

#[test]
fn message_texts() {
    assert_eq!(countdown_line(12, "  Birthday\n"), "12 days until Birthday");
    assert_eq!(media_message("42"), "Media Count :\n42");
    assert_eq!(HELP_REPLY, "I see a request for help, just <AT> me");
    assert_eq!(LOAD_ERROR_REPLY, "Error loading dates directory.");
}

#[test]
fn lines_for_dates_ahead_only() {
    let mut table = DateTable::new();
    table.insert("20251225".to_string(), "Christmas\n".to_string());
    table.insert("20250101".to_string(), "New Year".to_string());
    table.insert("junkjunk".to_string(), "nothing".to_string());
    let lines = countdown_messages(&table, (2025, 6, 1));
    assert_eq!(lines, vec!["208 days until Christmas".to_string()]);
}

#[test]
fn replies_to_messages() {
    let bot = Handler { client_id: "123".to_string() };
    assert!(bot.mentions_me(&vec![7, 123]));
    assert!(!bot.mentions_me(&vec![7, 1234]));
    assert_eq!(bot.replies("countdown", &vec![]), vec![Reply::Help]);
    assert_eq!(bot.replies("CountDown", &vec![123]), vec![Reply::Help]);
    assert_eq!(bot.replies("<@123> hi", &vec![123]), vec![Reply::Countdowns]);
    assert_eq!(bot.replies("hi", &vec![5]), Vec::<Reply>::new());
    assert_eq!(bot.replies("countdown!", &vec![]), Vec::<Reply>::new());
}

#[test]
fn bot_counts_one_more_than_the_page() {
    assert_eq!(countdown_days((2026, 3, 1), (2026, 2, 20)), Some(10));
    assert_eq!(days_until_text("20260301", 2026, 2, 20), "9 days");
    assert_eq!(countdown_days((2026, 2, 20), (2026, 2, 20)), None);
    assert_eq!(days_until_text("20260220", 2026, 2, 20), "Today!");
}

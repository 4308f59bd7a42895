use countdown::dates::{date_key_of, is_date_key, DateTable};

#[test]
fn key_is_first_eight_characters() {
    assert_eq!(date_key_of("20251225.txt"), Some("20251225".to_string()));
    assert_eq!(date_key_of("20251225"), Some("20251225".to_string()));
    assert_eq!(date_key_of("2025122"), None);
    assert_eq!(date_key_of("éé2025.txt"), Some("éé2025.t".to_string()));
    assert_eq!(date_key_of("éééé.txt"), Some("éééé.txt".to_string()));
    assert_eq!(date_key_of("éééé"), None);
}

#[test]
fn later_label_replaces_earlier() {
    let mut t = DateTable::new();
    t.insert("20251225".to_string(), "a".to_string());
    t.insert("20260101".to_string(), "b".to_string());
    t.insert("20251225".to_string(), "c".to_string());
    let e = t.entries();
    assert_eq!(e.len(), 2);
    assert_eq!((e[0].key.as_str(), e[0].label.as_str()), ("20251225", "c"));
    assert_eq!((e[1].key.as_str(), e[1].label.as_str()), ("20260101", "b"));
}

#[test]
fn date_keys() {
    assert!(is_date_key("20251225"));
    assert!(!is_date_key("2025122"));
    assert!(!is_date_key("2025-225"));
    assert!(!is_date_key("２０２５1225"));
}

use countdown::api::{
    add_date_refusal, add_date_response, label_of_body, date_file_path, delete_date_response, help, json_escape,
    list_dates_body, list_dates_response, list_error_response, not_found, reads_body,
    request_path, route, Method, Removal, Route, JSON, TEXT,
};
use countdown::dates::DateEntry;

fn entry(key: &str, label: &str) -> DateEntry {
    DateEntry { key: key.to_string(), label: label.to_string() }
}

#[test]
fn routes() {
    assert!(matches!(route(Method::Get, "/dates"), Route::ListDates));
    assert!(matches!(route(Method::Get, "/dates/"), Route::ListDates));
    assert!(matches!(route(Method::Post, "/dates/20251225"), Route::AddDate(k) if k == "20251225"));
    assert!(matches!(route(Method::Post, "/dates/"), Route::AddDate(k) if k.is_empty()));
    assert!(matches!(route(Method::Delete, "/dates/20251225"), Route::DeleteDate(k) if k == "20251225"));
    assert!(matches!(route(Method::Get, "/"), Route::Help));
    assert!(matches!(route(Method::Get, ""), Route::Help));
    assert!(matches!(route(Method::Get, "/dates/20251225"), Route::NotFound));
    assert!(matches!(route(Method::Post, "/dates"), Route::NotFound));
    assert!(matches!(route(Method::Other, "/dates"), Route::NotFound));
    assert!(matches!(route(Method::Delete, "/"), Route::NotFound));
}

#[test]
fn path_without_query() {
    assert_eq!(request_path("/dates?x=1"), "/dates");
    assert_eq!(request_path("/dates"), "/dates");
    assert_eq!(request_path("?a"), "");
    assert_eq!(request_path("/a?b?c"), "/a");
    assert!(reads_body(Method::Post));
    assert!(!reads_body(Method::Get));
}

#[test]
fn escapes() {
    assert_eq!(json_escape("plain"), "plain");
    assert_eq!(json_escape("a\"b\\c\nd\re\tf"), "a\\\"b\\\\c\\nd\\re\\tf");
    assert_eq!(json_escape("héllo"), "héllo");
    assert_eq!(json_escape("a\u{1}b\u{1f}c\u{7f}"), "a\\u0001b\\u001fc\u{7f}");
    assert_eq!(json_escape("\u{0}"), "\\u0000");
}

#[test]
fn keys_are_escaped_in_listing() {
    let entries = vec![entry("2025\"x\u{1}.", "L\u{2}")];
    assert_eq!(
        list_dates_body(&entries),
        "[{\"key\":\"2025\\\"x\\u0001.\",\"label\":\"L\\u0002\"}]"
    );
}

#[test]
fn listing_is_sorted_json() {
    let entries = vec![
        entry("20260101", "New Year 2026\n"),
        entry("20251225", "Christmas \"Day\""),
    ];
    let body = list_dates_body(&entries);
    assert_eq!(
        body,
        "[{\"key\":\"20251225\",\"label\":\"Christmas \\\"Day\\\"\"},{\"key\":\"20260101\",\"label\":\"New Year 2026\"}]"
    );
    let reversed = vec![entries[1].clone(), entries[0].clone()];
    assert_eq!(list_dates_body(&reversed), body);
    assert_eq!(list_dates_body(&vec![]), "[]");
    let r = list_dates_response(&entries);
    assert_eq!((r.0, r.1), (200, JSON));
}

#[test]
fn fixed_answers() {
    let h = help();
    assert_eq!(h.0, 200);
    assert_eq!(h.1, "application/json");
    assert_eq!(h.2, r#"{"routes":["GET /dates","POST /dates/{YYYYMMDD}","DELETE /dates/{YYYYMMDD}"]}"#);
    assert_eq!(not_found(), (404, "text/plain", "Not Found".to_string()));
    assert_eq!(
        list_error_response("gone"),
        (500, TEXT, "Error reading dates directory: gone".to_string())
    );
}

#[test]
fn adding_and_deleting() {
    assert_eq!(
        add_date_refusal("2025"),
        Some((400, TEXT, "Key must be 8-digit YYYYMMDD format".to_string()))
    );
    assert_eq!(add_date_refusal("2025122x"), Some((400, TEXT, "Key must be 8-digit YYYYMMDD format".to_string())));
    assert_eq!(add_date_refusal("20251225"), None);
    assert_eq!(date_file_path("20251225"), "/dates/20251225.txt");
    assert_eq!(add_date_response("20251225", Ok(())), (201, TEXT, "Created 20251225".to_string()));
    assert_eq!(
        add_date_response("20251225", Err("disk full".to_string())),
        (500, TEXT, "Error writing file: disk full".to_string())
    );
    assert_eq!(delete_date_response("20251225", Removal::Removed), (200, TEXT, "Deleted 20251225".to_string()));
    assert_eq!(delete_date_response("20251225", Removal::Missing), (404, TEXT, "Date not found".to_string()));
    assert_eq!(
        delete_date_response("20251225", Removal::Failed("busy".to_string())),
        (500, TEXT, "Error deleting file: busy".to_string())
    );
}

#[test]
fn body_read_as_utf8() {
    assert_eq!(label_of_body("Noël".as_bytes()), "Noël");
    assert_eq!(label_of_body(&[b'a', 0xff, b'b']), "a\u{fffd}b");
    assert_eq!(label_of_body(&[]), "");
}

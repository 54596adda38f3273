use sub_font_loader::report::{json_string, loaded_resource_count, push_json_field, to_json, LoadReport};
use sub_font_loader::session::FontSession;
use sub_font_loader::windows_api_wrapper::{add_font_resources, remove_font_resources};

#[test]
fn loading_records_successes_and_failures() {
    let mut session = FontSession::new();
    assert_eq!(session.loaded_count(), 0);
    let summary = session.load_fonts(vec![
        ("a.ttf".to_string(), 2),
        ("b.ttf".to_string(), 0),
        ("c.otf".to_string(), 1),
    ]);
    assert_eq!(session.loaded_count(), 2);
    let loaded: Vec<(&str, i32)> =
        summary.loaded.iter().map(|f| (f.path.as_str(), f.resource_count)).collect();
    assert_eq!(loaded, vec![("a.ttf", 2), ("c.otf", 1)]);
    assert_eq!(summary.failed.len(), 1);
    assert_eq!(summary.failed[0].path, "b.ttf");
    assert_eq!(summary.failed[0].error, "failed to add font resource: b.ttf");
}

#[test]
fn unloading_goes_in_reverse_and_empties_the_session() {
    let mut session = FontSession::new();
    session.load_fonts(vec![("a.ttf".to_string(), 1), ("b.ttf".to_string(), 3)]);
    session.load_fonts(vec![("c.ttf".to_string(), 1)]);
    assert_eq!(session.pending_unloads(), vec!["c.ttf", "b.ttf", "a.ttf"]);
    let summary = session.unload_all(vec![1, 0, 1]);
    assert_eq!(session.loaded_count(), 0);
    let unloaded: Vec<&str> = summary.unloaded.iter().map(|f| f.path.as_str()).collect();
    assert_eq!(unloaded, vec!["c.ttf", "a.ttf"]);
    assert_eq!(summary.failed.len(), 1);
    assert_eq!(summary.failed[0].path, "b.ttf");
    assert_eq!(summary.failed[0].error, "failed to remove font resource: b.ttf");
    assert!(session.pending_unloads().is_empty());
    let again = session.unload_all(vec![]);
    assert!(again.unloaded.is_empty() && again.failed.is_empty());
}

#[test]
fn resource_counts_add_up() {
    let mut session = FontSession::new();
    let summary = session.load_fonts(vec![
        ("a.ttf".to_string(), 2),
        ("b.ttf".to_string(), 0),
        ("c.ttc".to_string(), 5),
    ]);
    assert_eq!(loaded_resource_count(&summary), 7);
}

#[test]
fn json_strings_escape_quotes_backslashes_and_controls() {
    assert_eq!(json_string("plain"), "\"plain\"");
    assert_eq!(json_string("a\"b\\c"), "\"a\\\"b\\\\c\"");
    assert_eq!(json_string("l1\nl2\r\t"), "\"l1\\nl2\\r\\t\"");
    assert_eq!(json_string("\u{1}\u{1f}\u{7f}\u{9f}"), "\"\\u0001\\u001f\\u007f\\u009f\"");
    assert_eq!(json_string("字 é"), "\"字 é\"");
    assert_eq!(json_string(""), "\"\"");
}

#[test]
fn json_fields_end_with_an_optional_comma() {
    let mut out = String::from("{\n");
    push_json_field(&mut out, "name", "va\"l", true);
    push_json_field(&mut out, "last", "x", false);
    assert_eq!(out, "{\n  \"name\": \"va\\\"l\",\n  \"last\": \"x\"\n");
}

#[test]
fn load_report_as_json() {
    let mut session = FontSession::new();
    let load = session.load_fonts(vec![
        ("C:\\fonts\\a.ttf".to_string(), 2),
        ("C:\\fonts\\b \"x\".ttf".to_string(), 0),
    ]);
    let discovered = vec!["C:\\fonts\\a.ttf".to_string(), "C:\\fonts\\b \"x\".ttf".to_string()];
    let report = LoadReport {
        input: "pack.zip",
        source: "archive",
        scan_root: "C:\\tmp\\x",
        extracted_to: Some("C:\\tmp\\x"),
        recursive: true,
        discovered: &discovered,
        load: &load,
    };
    let expected = [
        "{",
        "  \"input\": \"pack.zip\",",
        "  \"source\": \"archive\",",
        "  \"scan_root\": \"C:\\\\tmp\\\\x\",",
        "  \"extracted_to\": \"C:\\\\tmp\\\\x\",",
        "  \"recursive\": true,",
        "  \"discovered_count\": 2,",
        "  \"loaded_count\": 1,",
        "  \"loaded_resource_count\": 2,",
        "  \"failed_count\": 1,",
        "  \"discovered\": [\"C:\\\\fonts\\\\a.ttf\", \"C:\\\\fonts\\\\b \\\"x\\\".ttf\"],",
        "  \"loaded\": [{\"path\": \"C:\\\\fonts\\\\a.ttf\", \"resource_count\": 2}],",
        "  \"failed\": [{\"path\": \"C:\\\\fonts\\\\b \\\"x\\\".ttf\", \"error\": \"failed to add font resource: C:\\\\fonts\\\\b \\\"x\\\".ttf\"}]",
        "}",
    ]
    .join("\n");
    assert_eq!(to_json(&report), expected);
}

#[test]
fn empty_load_report_as_json() {
    let mut session = FontSession::new();
    let load = session.load_fonts(vec![]);
    let discovered: Vec<String> = Vec::new();
    let report = LoadReport {
        input: ".",
        source: "directory",
        scan_root: ".",
        extracted_to: None,
        recursive: false,
        discovered: &discovered,
        load: &load,
    };
    let expected = "{\n  \"input\": \".\",\n  \"source\": \"directory\",\n  \"scan_root\": \".\",\n  \"extracted_to\": null,\n  \"recursive\": false,\n  \"discovered_count\": 0,\n  \"loaded_count\": 0,\n  \"loaded_resource_count\": 0,\n  \"failed_count\": 0,\n  \"discovered\": [],\n  \"loaded\": [],\n  \"failed\": []\n}";
    assert_eq!(to_json(&report), expected);
}

#[test]
fn batch_resource_calls() {
    assert_eq!(add_font_resources(&[1, 0, 3]), Ok(2));
    assert_eq!(
        add_font_resources(&[0, 0]),
        Err("Failed to add any font resources from 2 path(s)".to_string())
    );
    assert_eq!(
        add_font_resources(&[]),
        Err("Failed to add any font resources from 0 path(s)".to_string())
    );
    assert_eq!(remove_font_resources(&[1]), Ok(1));
    assert_eq!(
        remove_font_resources(&[0]),
        Err("Failed to remove any font resources from 1 path(s)".to_string())
    );
}

#[test]
fn font_change_is_announced_only_when_fonts_changed() {
    let mut session = FontSession::new();
    let none = session.load_fonts(vec![("a.ttf".to_string(), 0)]);
    assert!(!none.changes_fonts());
    let some = session.load_fonts(vec![("b.ttf".to_string(), 1)]);
    assert!(some.changes_fonts());
    let unload = session.unload_all(vec![0]);
    assert!(unload.changes_fonts());
    let empty = session.unload_all(vec![]);
    assert!(!empty.changes_fonts());
}

#[test]
fn loaded_count_counts_loads_since_the_last_unload() {
    let mut session = FontSession::new();
    session.load_fonts(vec![("a.ttf".to_string(), 1), ("b.ttf".to_string(), 1)]);
    session.unload_all(vec![1, 1]);
    session.load_fonts(vec![("c.ttf".to_string(), 1), ("d.ttf".to_string(), 0)]);
    session.load_fonts(vec![("e.ttf".to_string(), 2)]);
    assert_eq!(session.loaded_count(), 2);
}

#[test]
fn json_strings_hold_no_raw_control_characters() {
    let s = json_string("a\u{1}b\u{7f}c\u{85}\u{1f}");
    assert_eq!(s, "\"a\\u0001b\\u007fc\\u0085\\u001f\"");
    assert!(!s.chars().any(|c| c.is_control()));
}

use claude_sessions::json::Json;
use claude_sessions::scanner::{extract_text, rename_append, scan_file};
use claude_sessions::render::{excerpt, read_log, todo_titles};
use claude_sessions::{Cache, CachedMetadata, SessionManager};

fn lines(ls: &[&str]) -> String {
    ls.join("\n")
}

#[test]
fn meta_lines_do_not_count_and_last_title_wins() {
    let text = lines(&[
        r#"{"type":"user","message":{"content":"first question"}}"#,
        r#"{"type":"user","isMeta":true,"message":{"content":"meta"}}"#,
        r#"{"type":"rename","customTitle":""}"#,
        r#"{"type":"user","message":{"content":"second question"}}"#,
        r#"{"type":"rename","customTitle":"Foo"}"#,
    ]);
    let s = scan_file(&text);
    assert_eq!(s.message_count, 2);
    assert_eq!(s.title, Some("Foo".to_string()));
    assert_eq!(s.first_message, "first question");
}

#[test]
fn empty_title_after_a_name_keeps_the_name() {
    let text = lines(&[
        r#"{"type":"rename","customTitle":"Kept"}"#,
        r#"{"type":"rename","customTitle":""}"#,
    ]);
    let s = scan_file(&text);
    assert_eq!(s.title, Some("Kept".to_string()));
    assert_eq!(s.message_count, 0);
    assert_eq!(s.first_message, "(empty)");
}

#[test]
fn synthetic_and_broken_lines_are_skipped() {
    let text = lines(&[
        "not json at all",
        r#"{"type":"user","message":{"content":"Caveat: generated"}}"#,
        r#"{"type":"user","message":{"content":"<command-name>/clear</command-name>"}}"#,
        r#"{"type":"user","message":{"content":"<local-command-stdout>x</local-command-stdout>"}}"#,
        r#"{"type":"assistant","message":{"content":"hello"}}"#,
        r#"{"type":"user","message":{"content":"real
one"}}"#,
    ]);
    let s = scan_file(&text);
    assert_eq!(s.message_count, 0);
    let text2 = lines(&[
        "{\"type\":\"user\",\"message\":{\"content\":\"line one\\nline two\"}}",
        r#"{"type":"user","message":{"content":"later"}}"#,
    ]);
    let s2 = scan_file(&text2);
    assert_eq!(s2.message_count, 2);
    assert_eq!(s2.first_message, "line one line two");
}

#[test]
fn blank_messages_count_but_are_not_first() {
    let text = lines(&[
        r#"{"type":"user","message":{"content":"   "}}"#,
        r#"{"type":"user","message":{"content":[{"type":"text","text":"from "},{"type":"image"},{"type":"text","text":"blocks"}]}}"#,
    ]);
    let s = scan_file(&text);
    assert_eq!(s.message_count, 2);
    assert_eq!(s.first_message, "from blocks");
}

#[test]
fn user_line_without_content_is_passed_over() {
    let text = lines(&[
        r#"{"type":"user","message":{}}"#,
        r#"{"type":"user","message":{"content":"kept"}}"#,
    ]);
    let s = scan_file(&text);
    assert_eq!(s.message_count, 1);
    assert_eq!(s.first_message, "kept");
}

#[test]
fn empty_transcript_scans_to_marker() {
    let s = scan_file("");
    assert_eq!(s.message_count, 0);
    assert_eq!(s.title, None);
    assert_eq!(s.first_message, "(empty)");
}

#[test]
fn extract_text_joins_text_blocks() {
    let s = scan_file(r#"{"type":"user","message":{"content":[{"type":"text","text":"a"},{"type":"tool_use","text":"x"},{"type":"text","text":"b"}]}}"#);
    assert_eq!(s.first_message, "ab");
    let block = |kind: &str, text: &str| {
        Json::Object(vec![
            ("text".to_string(), Json::Str(text.to_string())),
            ("type".to_string(), Json::Str(kind.to_string())),
        ])
    };
    let content = Json::Array(vec![block("text", "x"), block("thinking", "y"), block("text", "z")]);
    assert_eq!(extract_text(&content), "xz");
    assert_eq!(extract_text(&Json::Str("plain".to_string())), "plain");
    assert_eq!(extract_text(&Json::Null), "");
}

#[test]
fn scan_and_cache_records_the_scan() {
    let mut cache = Cache::new();
    let r = SessionManager::scan_and_cache(
        Some(r#"{"type":"user","message":{"content":"hi"}}"#),
        "s1",
        42,
        &mut cache,
    );
    assert_eq!(r, (None, 1, "hi".to_string()));
    let m = cache.get("s1").unwrap();
    assert_eq!(m.modified_ts, 42);
    assert_eq!(m.message_count, 1);
    assert_eq!(m.first_message, "hi");
}

#[test]
fn unreadable_transcript_gives_zero_fields() {
    let mut cache = Cache::new();
    let r = SessionManager::scan_and_cache(None, "s1", 7, &mut cache);
    assert_eq!(r, (None, 0, String::new()));
    assert!(cache.is_fresh("s1", 7));
}

#[test]
fn cached_fields_survive_a_content_change_at_the_same_mtime() {
    let mut old = Cache::new();
    old.insert(
        "s1".to_string(),
        CachedMetadata {
            custom_name: Some("Cached".to_string()),
            message_count: 9,
            first_message: "cached first".to_string(),
            modified_ts: 100,
        },
    );
    let mut next = Cache::new();
    let r = SessionManager::reconcile(
        &old,
        &mut next,
        "s1",
        100,
        Some(r#"{"type":"user","message":{"content":"new text"}}"#),
    );
    assert_eq!(r, (Some("Cached".to_string()), 9, "cached first".to_string()));
    assert_eq!(next.get("s1").unwrap().message_count, 9);
}

#[test]
fn a_new_mtime_forces_a_rescan() {
    let mut old = Cache::new();
    old.insert(
        "s1".to_string(),
        CachedMetadata {
            custom_name: None,
            message_count: 9,
            first_message: "cached first".to_string(),
            modified_ts: 100,
        },
    );
    let mut next = Cache::new();
    let r = SessionManager::reconcile(
        &old,
        &mut next,
        "s1",
        101,
        Some(r#"{"type":"user","message":{"content":"new text"}}"#),
    );
    assert_eq!(r, (None, 1, "new text".to_string()));
    assert_eq!(next.get("s1").unwrap().modified_ts, 101);
}

#[test]
fn cache_insert_replaces_and_remove_evicts() {
    let mut c = Cache::new();
    let meta = |n: usize| CachedMetadata {
        custom_name: None,
        message_count: n,
        first_message: String::new(),
        modified_ts: 1,
    };
    c.insert("a".to_string(), meta(1));
    c.insert("b".to_string(), meta(2));
    c.insert("a".to_string(), meta(3));
    assert_eq!(c.entries.len(), 2);
    assert_eq!(c.get("a").unwrap().message_count, 3);
    assert!(c.remove("a"));
    assert!(!c.remove("a"));
    assert!(c.get("a").is_none());
    assert_eq!(c.get("b").unwrap().message_count, 2);
}

#[test]
fn read_log_renders_user_and_assistant_messages() {
    let text = lines(&[
        r#"{"type":"user","message":{"content":"hi"}}"#,
        r#"{"type":"assistant","message":{"content":[{"type":"text","text":"hello"}]}}"#,
        r#"{"type":"system","message":{"content":"ignored"}}"#,
        r#"{"type":"user","message":{"content":"<command-name>x</command-name>"}}"#,
        r#"{"type":"assistant","message":{"content":"  "}}"#,
    ]);
    assert_eq!(read_log(Some(&text)), "\n[USER]\nhi\n\n[ASSISTANT]\nhello\n");
    assert_eq!(read_log(None), "Error reading log");
}

#[test]
fn todo_titles_prefer_title_then_content() {
    let t = todo_titles(r#"[{"title":"a"},{"content":"b"},{"title":5,"content":"c"},{"other":1}]"#);
    assert_eq!(t, vec!["a".to_string(), "b".to_string()]);
    assert!(todo_titles("{\"title\":\"x\"}").is_empty());
    assert!(todo_titles("garbage").is_empty());
}

#[test]
fn excerpt_stops_after_the_first_messages() {
    let text = lines(&[
        r#"{"type":"user","message":{"content":"one"}}"#,
        r#"{"type":"system","message":{"content":"skip"}}"#,
        r#"{"type":"assistant","message":{"content":"two"}}"#,
        r#"{"type":"user","message":{"content":"three"}}"#,
    ]);
    assert_eq!(excerpt(&text, 2), "\n[USER]\none\n\n[ASSISTANT]\ntwo\n");
    assert_eq!(excerpt(&text, 0), "");
    assert_eq!(excerpt(&text, 10), read_log(Some(&text)));
}

#[test]
fn a_rename_is_an_appended_line_that_the_scan_reads() {
    let text = r#"{"type":"user","message":{"content":"hi"}}"#.to_string();
    let added = rename_append(text.chars().last(), "My \"best\" session", "2024-01-02T03:04:05+00:00");
    assert_eq!(
        added,
        "\n{\"type\":\"rename\",\"customTitle\":\"My \\\"best\\\" session\",\"timestamp\":\"2024-01-02T03:04:05+00:00\"}\n"
    );
    let renamed = format!("{}{}", text, added);
    let s = scan_file(&renamed);
    assert_eq!(s.title, Some("My \"best\" session".to_string()));
    assert_eq!(s.message_count, 1);
    let fresh = rename_append(None, "x", "t");
    assert!(fresh.starts_with('{') && fresh.ends_with("}\n"));
    let after_newline = rename_append(Some('\n'), "x", "t");
    assert_eq!(after_newline, fresh);
}

use claude_sessions::history::{rewrite_history, should_drop};
use claude_sessions::HistoryFilter;

#[test]
fn dropping_one_session_keeps_malformed_lines() {
    let text = "{\"sessionId\":\"a\"}\n{\"sessionId\":\"b\"}\nnot json";
    let r = rewrite_history(text, &HistoryFilter::SessionIs("a".to_string()));
    assert_eq!(r.dropped, 1);
    assert_eq!(r.replacement, Some("{\"sessionId\":\"b\"}\nnot json".to_string()));
}

#[test]
fn nothing_dropped_means_nothing_to_write() {
    let text = "{\"sessionId\":\"b\"}\n";
    let r = rewrite_history(text, &HistoryFilter::SessionIs("a".to_string()));
    assert_eq!(r.dropped, 0);
    assert_eq!(r.replacement, None);
    let empty = rewrite_history("", &HistoryFilter::SessionNotIn(Vec::new()));
    assert_eq!(empty.dropped, 0);
    assert_eq!(empty.replacement, None);
}

#[test]
fn pruning_twice_drops_nothing_the_second_time() {
    let text = "{\"sessionId\":\"a\",\"prompt\":\"x\"}\r\n{\"sessionId\":\"gone\"}\n{\"display\":\"no id\"}\n\n{\"sessionId\":\"a\"}\n";
    let f = HistoryFilter::SessionNotIn(vec!["a".to_string()]);
    let first = rewrite_history(text, &f);
    assert_eq!(first.dropped, 1);
    let after = first.replacement.unwrap();
    assert_eq!(
        after,
        "{\"sessionId\":\"a\",\"prompt\":\"x\"}\r\n{\"display\":\"no id\"}\n\n{\"sessionId\":\"a\"}"
    );
    let second = rewrite_history(&after, &f);
    assert_eq!(second.dropped, 0);
    assert_eq!(second.replacement, None);
}

#[test]
fn lines_without_a_string_session_id_are_never_dropped() {
    let f = HistoryFilter::SessionNotIn(Vec::new());
    assert!(!should_drop(&f, "{\"sessionId\":5}"));
    assert!(!should_drop(&f, "{\"other\":\"x\"}"));
    assert!(!should_drop(&f, "[1,2]"));
    assert!(!should_drop(&f, "garbage"));
    assert!(should_drop(&f, "{\"sessionId\":\"x\"}"));
    let g = HistoryFilter::SessionIs("x".to_string());
    assert!(should_drop(&g, "{\"sessionId\":\"x\",\"timestamp\":1}"));
    assert!(!should_drop(&g, "{\"sessionId\":\"y\"}"));
}

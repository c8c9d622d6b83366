use claude_sessions::browse::{empty_sessions, filter_sessions, matches_folded, step_selection, toggle};
use claude_sessions::order::sort_sessions;
use claude_sessions::{Cache, Config, ProjectDir, Satellites, Session, SessionManager, SortBy, TranscriptFile};

fn names(ns: &[&str]) -> Vec<String> {
    ns.iter().map(|s| s.to_string()).collect()
}

fn user(text: &str) -> String {
    format!("{{\"type\":\"user\",\"message\":{{\"content\":\"{}\"}}}}", text)
}

fn session(id: &str, size: u64, count: usize, modified: u64) -> Session {
    Session {
        id: id.to_string(),
        path: format!("projects/p/{}.jsonl", id),
        project: "p".to_string(),
        size,
        message_count: count,
        first_message: format!("about {}", id),
        modified,
        custom_name: None,
        related_files: Vec::new(),
    }
}

fn tree() -> (Vec<ProjectDir>, Satellites) {
    let ps = vec![
        ProjectDir { name: "p".to_string(), entries: names(&["a.jsonl", "b.jsonl", "agent-q.jsonl"]) },
        ProjectDir { name: "q".to_string(), entries: names(&["c.jsonl"]) },
    ];
    let sat = Satellites {
        debug: names(&["a.txt"]),
        session_env: Vec::new(),
        file_history: names(&["c"]),
        todos: names(&["b-agent-q.json"]),
    };
    (ps, sat)
}

fn files(with_text: bool) -> Vec<TranscriptFile> {
    let t = |s: String| if with_text { Some(s) } else { None };
    vec![
        TranscriptFile { project: 0, name: "a.jsonl".to_string(), size: 10, modified: 300, text: t(user("alpha")) },
        TranscriptFile { project: 0, name: "b.jsonl".to_string(), size: 20, modified: 100, text: t(format!("{}\n{}", user("beta"), user("more"))) },
        TranscriptFile { project: 0, name: "agent-q.jsonl".to_string(), size: 5, modified: 900, text: t(user("agent")) },
        TranscriptFile { project: 1, name: "c.jsonl".to_string(), size: 30, modified: 200, text: t(String::new()) },
        TranscriptFile { project: 7, name: "d.jsonl".to_string(), size: 1, modified: 1, text: t(user("lost")) },
    ]
}

#[test]
fn load_builds_sorted_records_and_cache() {
    let (ps, sat) = tree();
    let (sessions, cache) = SessionManager::assemble(&ps, &sat, &files(true), &Cache::new());
    let ids: Vec<&str> = sessions.iter().map(|s| s.id.as_str()).collect();
    assert_eq!(ids, vec!["a", "c", "b"]);
    assert_eq!(sessions[0].related_files, names(&["debug/a.txt"]));
    assert_eq!(sessions[0].path, "projects/p/a.jsonl");
    assert_eq!(sessions[1].project, "q");
    assert_eq!(sessions[1].first_message, "(empty)");
    assert_eq!(sessions[1].related_files, names(&["file-history/c"]));
    assert_eq!(sessions[2].message_count, 2);
    assert_eq!(sessions[2].first_message, "beta");
    assert_eq!(
        sessions[2].related_files,
        names(&["todos/b-agent-q.json", "projects/p/agent-q.jsonl"])
    );
    assert_eq!(cache.entries.len(), 3);
    assert!(cache.is_fresh("b", 100));
    assert!(cache.get("agent-q").is_none());
}

#[test]
fn second_load_through_the_cache_is_identical() {
    let (ps, sat) = tree();
    let (first, cache) = SessionManager::assemble(&ps, &sat, &files(true), &Cache::new());
    let (second, cache2) = SessionManager::assemble(&ps, &sat, &files(false), &cache);
    assert_eq!(first.len(), second.len());
    for (x, y) in first.iter().zip(second.iter()) {
        assert_eq!(x.id, y.id);
        assert_eq!(x.message_count, y.message_count);
        assert_eq!(x.first_message, y.first_message);
        assert_eq!(x.custom_name, y.custom_name);
        assert_eq!(x.related_files, y.related_files);
        assert_eq!(x.modified, y.modified);
    }
    assert_eq!(cache2.entries.len(), cache.entries.len());
}

#[test]
fn sorting_is_by_key_descending_and_stable() {
    let v = vec![session("a", 5, 1, 10), session("b", 9, 1, 30), session("c", 5, 3, 20)];
    let by_size: Vec<String> = sort_sessions(&v, SortBy::Size).into_iter().map(|s| s.id).collect();
    assert_eq!(by_size, names(&["b", "a", "c"]));
    let by_date: Vec<String> = sort_sessions(&v, SortBy::Date).into_iter().map(|s| s.id).collect();
    assert_eq!(by_date, names(&["b", "c", "a"]));
    let by_msgs: Vec<String> = sort_sessions(&v, SortBy::Messages).into_iter().map(|s| s.id).collect();
    assert_eq!(by_msgs, names(&["c", "a", "b"]));
    assert!(sort_sessions(&Vec::new(), SortBy::Date).is_empty());
}

#[test]
fn sort_cycles_through_keys() {
    assert_eq!(SortBy::Date.next(), SortBy::Size);
    assert_eq!(SortBy::Size.next(), SortBy::Messages);
    assert_eq!(SortBy::Messages.next(), SortBy::Date);
    let c = Config::default();
    assert!(c.sort_by.is_none() && c.filter_query.is_none());
}

#[test]
fn size_is_shown_in_kilobytes_or_megabytes() {
    assert_eq!(session("s", 0, 0, 0).size_str(), "0KB");
    assert_eq!(session("s", 2047, 0, 0).size_str(), "1KB");
    assert_eq!(session("s", 1048576, 0, 0).size_str(), "1024KB");
    assert_eq!(session("s", 1572864, 0, 0).size_str(), "1.5MB");
    assert_eq!(session("s", 10 * 1048576, 0, 0).size_str(), "10.0MB");
}

#[test]
fn megabytes_round_as_float_formatting_does() {
    for size in [1048577u64, 1310720, 1835008, 1153434, 3_000_000, 123_456_789, 1_048_576 * 99 + 1] {
        let expected = format!("{:.1}MB", size as f64 / 1048576.0);
        assert_eq!(session("s", size, 0, 0).size_str(), expected, "size {}", size);
    }
}

#[test]
fn display_name_prefers_a_custom_name() {
    let mut s = session("s", 0, 0, 0);
    s.custom_name = Some("Named".to_string());
    assert_eq!(s.display_name(), "Named");
    s.custom_name = Some("   ".to_string());
    s.first_message = "line\nbreak".to_string();
    assert_eq!(s.display_name(), "line break");
    s.first_message = "x".repeat(61);
    assert_eq!(s.display_name(), format!("{}...", "x".repeat(60)));
    s.first_message = "y".repeat(60);
    assert_eq!(s.display_name(), "y".repeat(60));
}

#[test]
fn age_is_shown_in_units_below_a_day() {
    let s = session("s", 0, 0, 1_000_000);
    assert_eq!(s.formatted_age(1_000_030), "30s");
    assert_eq!(s.formatted_age(999_000), "0s");
    assert_eq!(s.formatted_age(1_000_000 + 150), "2m");
    assert_eq!(s.formatted_age(1_000_000 + 7300), "2h");
}

#[test]
fn age_beyond_a_day_is_the_local_date() {
    let s = session("s", 0, 0, 1_700_000_000);
    let expected = chrono::DateTime::from_timestamp(1_700_000_000, 0)
        .unwrap()
        .with_timezone(&chrono::Local)
        .format("%d %b %y")
        .to_string();
    assert_eq!(s.formatted_age(1_800_000_000), expected);
}

#[test]
fn filter_matches_name_id_or_project_ignoring_case() {
    let mut v = vec![session("abc", 0, 0, 0), session("def", 0, 0, 0), session("ghi", 0, 0, 0)];
    v[1].custom_name = Some("Refactor PARSER".to_string());
    v[2].project = "Web-App".to_string();
    assert_eq!(filter_sessions(&v, "parser"), vec![1]);
    assert_eq!(filter_sessions(&v, "ABC"), vec![0]);
    assert_eq!(filter_sessions(&v, "web"), vec![2]);
    assert_eq!(filter_sessions(&v, ""), vec![0, 1, 2]);
    assert!(filter_sessions(&v, "zzz").is_empty());
    assert!(matches_folded("", "", "", ""));
    assert!(!matches_folded("x", "", "", ""));
}

#[test]
fn selection_wraps_around() {
    assert_eq!(step_selection(Some(0), -1, 3), 2);
    assert_eq!(step_selection(Some(2), 1, 3), 0);
    assert_eq!(step_selection(Some(1), 1, 3), 2);
    assert_eq!(step_selection(Some(0), -7, 3), 2);
    assert_eq!(step_selection(None, 1, 3), 0);
}

#[test]
fn toggle_adds_and_removes() {
    let mut sel = vec![3, 5];
    toggle(&mut sel, 4);
    assert_eq!(sel, vec![3, 5, 4]);
    toggle(&mut sel, 5);
    assert_eq!(sel, vec![3, 4]);
}

#[test]
fn empty_sessions_are_those_without_messages() {
    let v = vec![session("a", 0, 0, 0), session("b", 0, 2, 0), session("c", 0, 0, 0)];
    assert_eq!(empty_sessions(&v), vec![0, 2]);
}

#[test]
fn manager_paths_hang_off_the_root() {
    let m = SessionManager::under("/home/u/store".to_string());
    assert_eq!(m.history_file, "/home/u/store/history.jsonl");
    assert_eq!(m.cache_file, "/home/u/store/sessions_tui_cache.json");
    assert_eq!(m.path_of("debug/x.txt"), "/home/u/store/debug/x.txt");
    let n = SessionManager::new("r".to_string(), "c".to_string(), "h".to_string());
    assert_eq!((n.claude_root.as_str(), n.cache_file.as_str(), n.history_file.as_str()), ("r", "c", "h"));
}

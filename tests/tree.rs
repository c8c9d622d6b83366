use claude_sessions::deletion::deletion_targets;
use claude_sessions::layout::{file_stem, find_orphans, find_related, session_ids, transcript_id_of};
use claude_sessions::{ProjectDir, Satellites, Session};

fn names(ns: &[&str]) -> Vec<String> {
    ns.iter().map(|s| s.to_string()).collect()
}

fn project(name: &str, entries: &[&str]) -> ProjectDir {
    ProjectDir { name: name.to_string(), entries: names(entries) }
}

fn sats(debug: &[&str], env: &[&str], fh: &[&str], todos: &[&str]) -> Satellites {
    Satellites {
        debug: names(debug),
        session_env: names(env),
        file_history: names(fh),
        todos: names(todos),
    }
}

fn session(id: &str, project: &str, related: Vec<String>) -> Session {
    Session {
        id: id.to_string(),
        path: format!("projects/{}/{}.jsonl", project, id),
        project: project.to_string(),
        size: 0,
        message_count: 0,
        first_message: String::new(),
        modified: 0,
        custom_name: None,
        related_files: related,
    }
}

#[test]
fn transcript_ids_come_from_jsonl_stems() {
    assert_eq!(transcript_id_of("abc.jsonl"), Some("abc".to_string()));
    assert_eq!(transcript_id_of("a.b.jsonl"), Some("a.b".to_string()));
    assert_eq!(transcript_id_of("agent-1.jsonl"), None);
    assert_eq!(transcript_id_of(".jsonl"), None);
    assert_eq!(transcript_id_of("abc.json"), None);
    assert_eq!(transcript_id_of("abc.txt"), None);
}

#[test]
fn file_stems_drop_the_last_extension() {
    assert_eq!(file_stem("abc.txt"), "abc");
    assert_eq!(file_stem("a.b.c"), "a.b");
    assert_eq!(file_stem("plain"), "plain");
    assert_eq!(file_stem(".hidden"), ".hidden");
    assert_eq!(file_stem("end."), "end");
}

#[test]
fn session_ids_skip_agents_and_other_files() {
    let ps = vec![
        project("p", &["a.jsonl", "agent-x.jsonl", "notes.md"]),
        project("q", &["b.jsonl"]),
    ];
    assert_eq!(session_ids(&ps), names(&["a", "b"]));
}

#[test]
fn resolve_includes_todo_and_agent_transcript() {
    let p = project("p", &["abc123.jsonl", "agent-xyz.jsonl"]);
    let s = sats(&[], &[], &[], &["abc123-agent-xyz.json"]);
    let r = find_related("abc123", &p, &s);
    assert_eq!(
        r,
        names(&["todos/abc123-agent-xyz.json", "projects/p/agent-xyz.jsonl"])
    );
    let sess = session("abc123", "p", r.clone());
    let t = deletion_targets(&sess, &r, true);
    assert_eq!(
        t,
        names(&[
            "todos/abc123-agent-xyz.json",
            "projects/p/agent-xyz.jsonl",
            "projects/p/abc123.jsonl",
        ])
    );
}

#[test]
fn resolve_finds_every_satellite_that_exists() {
    let p = project("p", &["s1.jsonl"]);
    let s = sats(
        &["s1.txt", "s2.txt", "latest"],
        &["s1"],
        &["s1", "s3"],
        &["s1.json", "s10-agent-q.json", "other.json"],
    );
    let r = find_related("s1", &p, &s);
    assert_eq!(
        r,
        names(&[
            "debug/s1.txt",
            "session-env/s1",
            "file-history/s1",
            "todos/s1.json",
            "todos/s10-agent-q.json",
        ])
    );
    let none = find_related("zz", &p, &s);
    assert!(none.is_empty());
}

#[test]
fn agent_transcript_missing_is_left_out() {
    let p = project("p", &["abc.jsonl"]);
    let s = sats(&[], &[], &[], &["abc-agent-gone.json"]);
    assert_eq!(find_related("abc", &p, &s), names(&["todos/abc-agent-gone.json"]));
}

#[test]
fn orphans_are_exactly_the_unowned_entries() {
    let ps = vec![project("p", &["a.jsonl", "b.jsonl", "agent-z.jsonl"])];
    let s = sats(
        &["a.txt", "c.txt", "latest", "agent-z.txt"],
        &["b", "d"],
        &["a", "e"],
        &["a-agent-1.json", "bb.json", "x.json"],
    );
    let o = find_orphans(&ps, &s);
    assert_eq!(
        o,
        names(&[
            "debug/c.txt",
            "debug/agent-z.txt",
            "session-env/d",
            "file-history/e",
            "todos/x.json",
        ])
    );
    assert!(!o.contains(&"debug/latest".to_string()));
}

#[test]
fn nothing_is_orphaned_in_an_empty_tree() {
    let o = find_orphans(&Vec::new(), &sats(&[], &[], &[], &[]));
    assert!(o.is_empty());
    let o2 = find_orphans(&Vec::new(), &sats(&["latest"], &["x"], &[], &["t.json"]));
    assert_eq!(o2, names(&["session-env/x", "todos/t.json"]));
}

#[test]
fn deletion_counts_each_path_once() {
    let related = names(&["debug/s.txt", "session-env/s", "todos/s.json"]);
    let sess = session("s", "p", related.clone());
    let t = deletion_targets(&sess, &related, true);
    assert_eq!(t.len(), related.len() + 1);
    let fresh = names(&["debug/s.txt", "file-history/s"]);
    let t2 = deletion_targets(&sess, &fresh, false);
    assert_eq!(
        t2,
        names(&["debug/s.txt", "session-env/s", "todos/s.json", "file-history/s"])
    );
}

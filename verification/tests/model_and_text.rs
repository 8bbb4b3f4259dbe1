use geomancer::model::{SnapshotStats, Task, TaskSnapshot, TaskStatus};
use geomancer::text::{
    chars_of, contains, eq_ignore_ascii_case, join_path_text, lines_of, push_decimal, starts_with,
    text_less, to_ascii_lowercase, trim,
};

fn task(id: &str, status: TaskStatus, deps: &[&str]) -> Task {
    Task {
        id: id.to_string(),
        title: format!("title of {id}"),
        status,
        source: "test".to_string(),
        source_path: None,
        assignee: None,
        claimed_at: None,
        completed_at: None,
        updated_at: None,
        dependency_ids: deps.iter().map(|d| d.to_string()).collect(),
        dependent_ids: Vec::new(),
        url: None,
    }
}

fn line_texts(text: &str) -> Vec<String> {
    lines_of(&chars_of(text))
        .into_iter()
        .map(|line| line.into_iter().collect())
        .collect()
}

#[test]
fn from_raw_maps_every_known_word() {
    for word in ["open", "todo", "pending"] {
        assert!(matches!(TaskStatus::from_raw(word), TaskStatus::Open));
    }
    for word in ["in_progress", "in-progress", "doing", "active"] {
        assert!(matches!(TaskStatus::from_raw(word), TaskStatus::InProgress));
    }
    for word in ["blocked", "waiting", "deferred"] {
        assert!(matches!(TaskStatus::from_raw(word), TaskStatus::Blocked));
    }
    for word in ["done", "closed", "complete", "completed", "resolved"] {
        assert!(matches!(TaskStatus::from_raw(word), TaskStatus::Done));
    }
}

#[test]
fn from_raw_ignores_ascii_case() {
    assert!(matches!(TaskStatus::from_raw("DONE"), TaskStatus::Done));
    assert!(matches!(TaskStatus::from_raw("In_Progress"), TaskStatus::InProgress));
    assert!(matches!(TaskStatus::from_raw("Blocked"), TaskStatus::Blocked));
}

#[test]
fn from_raw_keeps_unknown_words_lowercased() {
    match TaskStatus::from_raw("Triage") {
        TaskStatus::Unknown(word) => assert_eq!(word, "triage"),
        other => panic!("unexpected {other:?}"),
    }
    match TaskStatus::from_raw("") {
        TaskStatus::Unknown(word) => assert_eq!(word, ""),
        other => panic!("unexpected {other:?}"),
    }
    // only ASCII letters are lower-cased
    match TaskStatus::from_raw("ÉTAPE") {
        TaskStatus::Unknown(word) => assert_eq!(word, "Étape"),
        other => panic!("unexpected {other:?}"),
    }
}

#[test]
fn labels_of_statuses() {
    assert_eq!(TaskStatus::Open.label(), "open");
    assert_eq!(TaskStatus::InProgress.label(), "in progress");
    assert_eq!(TaskStatus::Blocked.label(), "blocked");
    assert_eq!(TaskStatus::Done.label(), "done");
    assert_eq!(TaskStatus::Unknown("triage".to_string()).label(), "triage");
    assert_eq!(TaskStatus::from_raw("COMPLETED").label(), "done");
}

#[test]
fn status_predicates() {
    assert!(TaskStatus::Done.is_done());
    assert!(!TaskStatus::Open.is_done());
    assert!(TaskStatus::Blocked.is_blocked());
    assert!(!TaskStatus::InProgress.is_blocked());
}

#[test]
fn task_blocked_by_status_or_dependency() {
    assert!(task("a", TaskStatus::Blocked, &[]).is_blocked());
    assert!(task("a", TaskStatus::Open, &["b"]).is_blocked());
    assert!(!task("a", TaskStatus::Open, &[]).is_blocked());
    // empty dependency ids do not block
    assert!(!task("a", TaskStatus::Open, &["", ""]).is_blocked());
    assert!(task("a", TaskStatus::Done, &[]).is_done());
}

#[test]
fn empty_snapshot() {
    let snapshot = TaskSnapshot::empty("/repo".to_string());
    assert_eq!(snapshot.root, "/repo");
    assert!(snapshot.tasks.is_empty());
    assert!(snapshot.sources.is_empty());
    assert!(snapshot.warnings.is_empty());
    assert!(snapshot.trail_events.is_empty());
    let stats = snapshot.stats();
    assert_eq!(stats.total, 0);
}

#[test]
fn stats_count_by_status_and_sum_to_total() {
    let mut snapshot = TaskSnapshot::empty("/repo".to_string());
    snapshot.tasks = vec![
        task("a", TaskStatus::Done, &[]),
        task("b", TaskStatus::Done, &[]),
        task("c", TaskStatus::InProgress, &[]),
        task("d", TaskStatus::Blocked, &[]),
        task("e", TaskStatus::Open, &[]),
        task("f", TaskStatus::Unknown("triage".to_string()), &[]),
    ];
    let stats: SnapshotStats = snapshot.stats();
    assert_eq!(stats.total, 6);
    assert_eq!(stats.done, 2);
    assert_eq!(stats.in_progress, 1);
    assert_eq!(stats.blocked, 1);
    assert_eq!(stats.open, 2);
    assert_eq!(stats.done + stats.in_progress + stats.blocked + stats.open, stats.total);
}

#[test]
fn task_index_last_id_wins() {
    let mut snapshot = TaskSnapshot::empty("/repo".to_string());
    snapshot.tasks = vec![
        task("a", TaskStatus::Open, &[]),
        task("b", TaskStatus::Open, &[]),
        task("a", TaskStatus::Open, &[]),
    ];
    let index = snapshot.task_index();
    assert_eq!(index.len(), 3);
    assert_eq!(index.get(&"a".to_string()), Some(2));
    assert_eq!(index.get(&"b".to_string()), Some(1));
    assert_eq!(index.get(&"c".to_string()), None);
}

#[test]
fn default_stats_are_zero() {
    let stats = SnapshotStats::default();
    assert_eq!((stats.total, stats.done, stats.in_progress, stats.blocked, stats.open), (0, 0, 0, 0, 0));
}

#[test]
fn trim_matches_std() {
    for text in ["", "  a b  ", "\t\nx\r\n", "\u{3000}wide\u{a0}", "none", "   "] {
        assert_eq!(trim(text), text.trim());
    }
}

#[test]
fn whitespace_matches_std_for_all_chars() {
    for code in 0u32..0x3100 {
        if let Some(c) = char::from_u32(code) {
            assert_eq!(geomancer::text::char_is_whitespace(c), c.is_whitespace(), "{code:#x}");
        }
    }
}

#[test]
fn lowercase_and_case_insensitive_compare() {
    assert_eq!(to_ascii_lowercase("In_Progress Ä"), "in_progress Ä");
    assert!(eq_ignore_ascii_case("IN_PROGRESS", "in_progress"));
    assert!(!eq_ignore_ascii_case("in_progress", "in-progress"));
    assert!(!eq_ignore_ascii_case("a", "ab"));
}

#[test]
fn lines_match_std() {
    for text in ["", "a", "a\n", "\n", "a\r\nb", "a\rb", "a\n\nb\n", "x\r"] {
        let expected: Vec<String> = text.lines().map(|l| l.to_string()).collect();
        assert_eq!(line_texts(text), expected, "{text:?}");
    }
}

#[test]
fn search_in_text() {
    assert!(contains("issue started now", "started"));
    assert!(contains("abc", ""));
    assert!(!contains("ab", "abc"));
    assert!(starts_with("- [ ] task", "- [ ] "));
    assert!(!starts_with("- [", "- [ ] "));
}

#[test]
fn decimal_and_paths() {
    let mut out = String::from("n=");
    push_decimal(&mut out, 0);
    push_decimal(&mut out, 1207);
    assert_eq!(out, "n=01207");
    assert_eq!(join_path_text("/repo", ".beads"), "/repo/.beads");
    assert_eq!(join_path_text("/", ".beads"), "/.beads");
    assert_eq!(join_path_text("", ".beads"), ".beads");
}

#[test]
fn text_order_matches_std() {
    let words = ["", "a", "ab", "b", "B", "é", "z", "aa"];
    for a in words {
        for b in words {
            assert_eq!(text_less(a, b), a < b, "{a:?} < {b:?}");
        }
    }
}

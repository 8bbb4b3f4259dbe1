use geomancer::json::JsonValue;
use geomancer::model::{Task, TaskStatus, TrailEvent, TrailEventKind};
use geomancer::sources::beads::{
    self, beads_dir, classify_activity_kind, extract_task_id, parse_activity_events,
    load_activity, parse_activity_output, parse_warnings, task_from_issue, ActivityOutcome,
    BeadDependency, BeadIssue, ListOutcome,
};
use geomancer::sources::markdown::{
    self, is_markdown_extension, is_skipped_dir, parse_checklist, within_scan_depth, MarkdownFile,
};
use geomancer::sources::{deduplicate_warnings, load_repository, populate_dependents, SourceLoadResult};

fn s(text: &str) -> JsonValue {
    JsonValue::String(text.to_string())
}

fn obj(members: Vec<(&str, JsonValue)>) -> JsonValue {
    JsonValue::Object(members.into_iter().map(|(k, v)| (k.to_string(), v)).collect())
}

fn issue(id: &str, status: &str, deps: Option<Vec<&str>>) -> BeadIssue {
    BeadIssue {
        id: id.to_string(),
        title: format!("Issue {id}"),
        status: status.to_string(),
        owner: Some("ana".to_string()),
        closed_at: None,
        updated_at: Some("2024-05-01T10:00:00Z".to_string()),
        dependencies: deps.map(|ds| {
            ds.into_iter()
                .map(|d| BeadDependency { depends_on_id: d.to_string() })
                .collect()
        }),
    }
}

fn task(source: &str, id: &str, title: &str, deps: &[&str]) -> Task {
    Task {
        id: id.to_string(),
        title: title.to_string(),
        status: TaskStatus::Open,
        source: source.to_string(),
        source_path: None,
        assignee: None,
        claimed_at: None,
        completed_at: None,
        updated_at: None,
        dependency_ids: deps.iter().map(|d| d.to_string()).collect(),
        dependent_ids: Vec::new(),
        url: None,
    }
}

#[test]
fn warnings_drop_blank_lines_and_daemon_notices() {
    let stderr = b"  Warning: Daemon took too long to start\n\nreal warning  \r\nHint: Run 'bd doctor' for help\n  another\n";
    assert_eq!(parse_warnings(stderr), vec!["real warning".to_string(), "another".to_string()]);
    assert!(parse_warnings(b"").is_empty());
}

#[test]
fn warnings_decode_invalid_utf8_lossily() {
    // an invalid byte becomes U+FFFD instead of being passed through
    assert_eq!(parse_warnings(&[b'o', b'k', 0xff, b'\n']), vec!["ok\u{fffd}".to_string()]);
}

#[test]
fn beads_dir_is_joined() {
    assert_eq!(beads_dir("/work/repo"), "/work/repo/.beads");
}

#[test]
fn issue_becomes_task() {
    let t = task_from_issue(issue("bd-1", "IN_PROGRESS", Some(vec!["bd-0", "bd-2"])), &"/r/.beads".to_string());
    assert_eq!(t.id, "bd-1");
    assert_eq!(t.title, "Issue bd-1");
    assert!(matches!(t.status, TaskStatus::InProgress));
    assert_eq!(t.source, "beads");
    assert_eq!(t.source_path.as_deref(), Some("/r/.beads"));
    assert_eq!(t.assignee.as_deref(), Some("ana"));
    assert_eq!(t.claimed_at.as_deref(), Some("2024-05-01T10:00:00Z"));
    assert_eq!(t.completed_at, None);
    assert_eq!(t.dependency_ids, vec!["bd-0".to_string(), "bd-2".to_string()]);
    assert!(t.dependent_ids.is_empty());

    let closed = task_from_issue(
        BeadIssue { closed_at: Some("2024-06-01".to_string()), ..issue("bd-3", "closed", None) },
        &"/r/.beads".to_string(),
    );
    assert!(matches!(closed.status, TaskStatus::Done));
    assert_eq!(closed.claimed_at, None);
    assert_eq!(closed.completed_at.as_deref(), Some("2024-06-01"));
    assert!(closed.dependency_ids.is_empty());
}

#[test]
fn load_reports_each_failure() {
    match beads::load("/r", ListOutcome::SpawnFailed("No such file".to_string()), None) {
        Err(message) => assert_eq!(message, "failed to execute `bd list --json`: No such file"),
        Ok(_) => panic!("expected an error"),
    }
    let failed = ListOutcome::Exited {
        success: false,
        issues: Ok(Vec::new()),
        stderr: b"  database locked \n".to_vec(),
    };
    match beads::load("/r", failed, None) {
        Err(message) => assert_eq!(message, "database locked"),
        Ok(_) => panic!("expected an error"),
    }
    let garbled = ListOutcome::Exited {
        success: true,
        issues: Err("expected value at line 1".to_string()),
        stderr: Vec::new(),
    };
    match beads::load("/r", garbled, None) {
        Err(message) => assert_eq!(message, "failed to parse `bd` JSON: expected value at line 1"),
        Ok(_) => panic!("expected an error"),
    }
}

#[test]
fn load_converts_issues_warnings_and_activity() {
    let outcome = ListOutcome::Exited {
        success: true,
        issues: Ok(vec![issue("bd-2", "open", None), issue("bd-1", "done", Some(vec!["bd-2"]))]),
        stderr: b"note: slow disk\n".to_vec(),
    };
    let activity = ActivityOutcome::Exited {
        success: true,
        stdout: br#"[{"issue": {"id": "bd-2"}, "event": "Started work", "timestamp": "2024-05-02"}]"#
            .to_vec(),
    };
    let result = beads::load("/r", outcome, Some(activity)).expect("loads");
    let ids: Vec<&str> = result.tasks.iter().map(|t| t.id.as_str()).collect();
    assert_eq!(ids, vec!["bd-2", "bd-1"]);
    assert_eq!(result.tasks[0].source_path.as_deref(), Some("/r/.beads"));
    assert_eq!(result.warnings, vec!["note: slow disk".to_string()]);
    assert_eq!(result.trail_events.len(), 1);
    assert_eq!(result.trail_events[0].actor, "shared");
    assert_eq!(result.trail_events[0].kind, TrailEventKind::Claimed);
}

#[test]
fn activity_kind_prefers_claims() {
    assert_eq!(classify_activity_kind(&obj(vec![("a", s("\u{2192}"))])), Some(TrailEventKind::Claimed));
    assert_eq!(
        classify_activity_kind(&obj(vec![("a", s("Closed")), ("b", s("WORKING on it"))])),
        Some(TrailEventKind::Claimed)
    );
    assert_eq!(
        classify_activity_kind(&JsonValue::Array(vec![s("\u{2713}")])),
        Some(TrailEventKind::Completed)
    );
    assert_eq!(classify_activity_kind(&obj(vec![("a", s("Marked DONE"))])), Some(TrailEventKind::Completed));
    assert_eq!(classify_activity_kind(&obj(vec![("a", s("comment"))])), None);
    assert_eq!(classify_activity_kind(&JsonValue::Bool(true)), None);
}

#[test]
fn task_id_from_issue_or_fields() {
    let nested = obj(vec![("issue", obj(vec![("id", s("bd-9"))])), ("id", s("evt-1"))]);
    assert_eq!(extract_task_id(&nested).map(|x| x.as_str()), Some("bd-9"));
    let flat = obj(vec![("id", s("evt-2")), ("issue_id", s("bd-7"))]);
    assert_eq!(extract_task_id(&flat).map(|x| x.as_str()), Some("bd-7"));
    let deep = obj(vec![("data", JsonValue::Array(vec![obj(vec![("id", s("bd-5"))])]))]);
    assert_eq!(extract_task_id(&deep).map(|x| x.as_str()), Some("bd-5"));
    assert_eq!(extract_task_id(&JsonValue::Null), None);
}

#[test]
fn activity_events_sorted_and_filtered() {
    let values = vec![
        obj(vec![("issue_id", s("b")), ("status", s("closed")), ("at", s("2024-03")), ("actor", s("kim"))]),
        obj(vec![("issue_id", s("a")), ("status", s("started")), ("timestamp", s("2024-01"))]),
        obj(vec![("issue_id", s("c")), ("status", s("noted")), ("timestamp", s("2024-02"))]),
        obj(vec![("status", s("done")), ("timestamp", s("2024-02"))]),
        obj(vec![("issue_id", s("d")), ("status", s("done"))]),
    ];
    let events: Vec<TrailEvent> = parse_activity_events(&values);
    let summary: Vec<(&str, &str, &str, TrailEventKind)> = events
        .iter()
        .map(|e| (e.task_id.as_str(), e.actor.as_str(), e.timestamp.as_str(), e.kind))
        .collect();
    assert_eq!(
        summary,
        vec![
            ("a", "shared", "2024-01", TrailEventKind::Claimed),
            ("b", "kim", "2024-03", TrailEventKind::Completed),
        ]
    );
}

#[test]
fn checklist_lines_become_tasks() {
    let content = "# Plan\n- [ ] write docs  \n  - [x] ship it\n- [X] Done too\n- [] not an item\n-  [ ] nor this\n";
    let tasks = parse_checklist(&"notes/todo.md".to_string(), content);
    let summary: Vec<(&str, &str, bool)> =
        tasks.iter().map(|t| (t.id.as_str(), t.title.as_str(), t.is_done())).collect();
    assert_eq!(
        summary,
        vec![
            ("md:notes/todo.md:2", "write docs", false),
            ("md:notes/todo.md:3", "ship it", true),
            ("md:notes/todo.md:4", "Done too", true),
        ]
    );
    assert_eq!(tasks[0].source, "markdown");
    assert_eq!(tasks[0].source_path.as_deref(), Some("notes/todo.md"));
}

#[test]
fn markdown_load_skips_unreadable_files() {
    let files = vec![
        MarkdownFile { path: "a.md".to_string(), content: Some("- [ ] one\n".to_string()) },
        MarkdownFile { path: "b.md".to_string(), content: None },
        MarkdownFile { path: "c.md".to_string(), content: Some("text\n- [x] two".to_string()) },
    ];
    let result = markdown::load(&files);
    let ids: Vec<&str> = result.tasks.iter().map(|t| t.id.as_str()).collect();
    assert_eq!(ids, vec!["md:a.md:1", "md:c.md:2"]);
    assert!(result.warnings.is_empty());
}

#[test]
fn markdown_scan_rules() {
    for name in [".git", ".beads", "target", "node_modules", ".idea", ".zed"] {
        assert!(is_skipped_dir(name));
    }
    assert!(!is_skipped_dir("docs"));
    assert!(is_markdown_extension("md"));
    assert!(is_markdown_extension("markdown"));
    assert!(!is_markdown_extension("MD"));
    assert!(within_scan_depth(6));
    assert!(!within_scan_depth(7));
}

#[test]
fn dependents_reverse_dependency_links() {
    let mut tasks = vec![
        task("x", "a", "A", &[]),
        task("x", "b", "B", &["a", "missing"]),
        task("x", "c", "C", &["a", "b", "a"]),
    ];
    populate_dependents(&mut tasks);
    assert_eq!(tasks[0].dependent_ids, vec!["b".to_string(), "c".to_string(), "c".to_string()]);
    assert_eq!(tasks[1].dependent_ids, vec!["c".to_string()]);
    assert!(tasks[2].dependent_ids.is_empty());
    assert_eq!(tasks[1].dependency_ids, vec!["a".to_string(), "missing".to_string()]);
}

#[test]
fn duplicate_warnings_are_dropped() {
    let mut warnings: Vec<String> = ["x", "y", "x", "z", "y"].iter().map(|w| w.to_string()).collect();
    deduplicate_warnings(&mut warnings);
    assert_eq!(warnings, vec!["x".to_string(), "y".to_string(), "z".to_string()]);
}

#[test]
fn missing_root_is_an_error() {
    match load_repository("/nowhere".to_string(), false, None, Ok(SourceLoadResult::default())) {
        Err(message) => assert_eq!(message, "/nowhere does not exist"),
        Ok(_) => panic!("expected an error"),
    }
}

#[test]
fn repository_merges_sorts_and_links() {
    let beads_result = SourceLoadResult {
        tasks: vec![task("beads", "bd-2", "Second", &["bd-1"]), task("beads", "bd-1", "First", &[])],
        warnings: vec!["w".to_string()],
        trail_events: Vec::new(),
    };
    let markdown_result = SourceLoadResult {
        tasks: vec![task("markdown", "md:a.md:1", "Item", &[])],
        warnings: vec!["w".to_string()],
        trail_events: Vec::new(),
    };
    let snapshot = load_repository("/repo".to_string(), true, Some(Ok(beads_result)), Ok(markdown_result))
        .expect("loads");
    let ids: Vec<&str> = snapshot.tasks.iter().map(|t| t.id.as_str()).collect();
    assert_eq!(ids, vec!["bd-1", "bd-2", "md:a.md:1"]);
    assert_eq!(snapshot.tasks[0].dependent_ids, vec!["bd-2".to_string()]);
    assert_eq!(snapshot.warnings, vec!["w".to_string()]);
    let sources: Vec<(&str, usize)> =
        snapshot.sources.iter().map(|s| (s.name.as_str(), s.task_count)).collect();
    assert_eq!(sources, vec![("beads", 2), ("markdown", 1)]);
    assert_eq!(snapshot.sources[0].detail, "Loaded through `bd list --json`");
    assert_eq!(snapshot.sources[1].detail, "Checklist items from repo markdown");
}

#[test]
fn failed_sources_become_warnings() {
    let snapshot = load_repository(
        "/repo".to_string(),
        true,
        Some(Err("bd missing".to_string())),
        Err("failed to read /repo: denied".to_string()),
    )
    .expect("loads");
    assert!(snapshot.tasks.is_empty());
    assert!(snapshot.sources.is_empty());
    assert_eq!(
        snapshot.warnings,
        vec!["beads: bd missing".to_string(), "markdown: failed to read /repo: denied".to_string()]
    );
}

#[test]
fn sources_without_tasks_are_not_listed() {
    let snapshot = load_repository("/repo".to_string(), true, None, Ok(SourceLoadResult::default()))
        .expect("loads");
    assert!(snapshot.sources.is_empty());
    assert_eq!(snapshot.root, "/repo");
}

#[test]
fn activity_output_is_read_as_json() {
    let stdout = br#"[
        {"issue_id": "b", "status": "closed", "at": "2024-03", "actor": "kim", "n": 1.5},
        {"zeta": {"issue_id": "a"}, "alpha": {"issue_id": "z"}, "status": "started", "timestamp": "2024-01"},
        {"issue_id": "c", "status": "noted", "timestamp": "2024-02"},
        null
    ]"#;
    let events = parse_activity_output(stdout).expect("a JSON list");
    let summary: Vec<(&str, &str, &str, TrailEventKind)> = events
        .iter()
        .map(|e| (e.task_id.as_str(), e.actor.as_str(), e.timestamp.as_str(), e.kind))
        .collect();
    // Members are searched in key order, so "alpha" comes before "zeta".
    assert_eq!(
        summary,
        vec![
            ("z", "shared", "2024-01", TrailEventKind::Claimed),
            ("b", "kim", "2024-03", TrailEventKind::Completed),
        ]
    );
}

#[test]
fn activity_output_that_is_no_list_is_an_error() {
    let error = parse_activity_output(b"{\"issue_id\": \"a\"}").expect_err("not a list");
    assert!(error.starts_with("failed to parse `bd activity` JSON: "));
    let error = parse_activity_output(b"not json").expect_err("not JSON");
    let reader_error = serde_json::from_slice::<Vec<serde_json::Value>>(b"not json")
        .expect_err("not JSON")
        .to_string();
    assert_eq!(error, format!("failed to parse `bd activity` JSON: {reader_error}"));
    assert_eq!(parse_activity_output(b"[]").expect("empty list").len(), 0);
}

#[test]
fn activity_run_outcomes() {
    let error = load_activity(ActivityOutcome::SpawnFailed("no bd".to_string())).expect_err("spawn");
    assert_eq!(error, "failed to execute `bd activity --json`: no bd");
    let failed = ActivityOutcome::Exited { success: false, stdout: b"[{}]".to_vec() };
    assert_eq!(load_activity(failed).expect("failure gives no events").len(), 0);
}

#[test]
fn activity_failures_leave_loaded_tasks_without_events() {
    let list = || ListOutcome::Exited {
        success: true,
        issues: Ok(vec![issue("bd-1", "open", None)]),
        stderr: Vec::new(),
    };
    let broken = ActivityOutcome::Exited { success: true, stdout: b"oops".to_vec() };
    let result = beads::load("/r", list(), Some(broken)).expect("loads");
    assert_eq!(result.tasks.len(), 1);
    assert!(result.trail_events.is_empty());
    let spawn = ActivityOutcome::SpawnFailed("gone".to_string());
    let result = beads::load("/r", list(), Some(spawn)).expect("loads");
    assert!(result.trail_events.is_empty());
    let result = beads::load("/r", list(), None).expect("loads");
    assert!(result.trail_events.is_empty());
}

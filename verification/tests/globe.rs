use geomancer::animation::{update_completion_animations, CompletionTimers, DoneStates};
use geomancer::model::{Task, TaskSnapshot, TaskStatus, TrailEvent, TrailEventKind};
use geomancer::render::{
    activity_trail_groups, claimed_sort_key, collect_root_seeds, completed_sort_key, hash_text,
    lineage_hue_degrees, task_matches_trail_kind, task_trail_groups, trail_groups,
    trail_sort_key, GlobeRenderOutput, TrailKind, TrailNode,
};
use geomancer::sorting::sort_by_key_vec;

fn task(id: &str, status: TaskStatus, deps: &[&str]) -> Task {
    Task {
        id: id.to_string(),
        title: id.to_string(),
        status,
        source: "beads".to_string(),
        source_path: None,
        assignee: None,
        claimed_at: None,
        completed_at: None,
        updated_at: None,
        dependency_ids: deps.iter().map(|d| d.to_string()).collect(),
        dependent_ids: Vec::new(),
        url: None,
    }
}

fn fnv(text: &str) -> u64 {
    let mut hash = 14695981039346656037u64;
    for byte in text.as_bytes() {
        hash ^= *byte as u64;
        hash = hash.wrapping_mul(1099511628211);
    }
    hash
}

fn cells_of(groups: &[Vec<TrailNode>]) -> Vec<Vec<usize>> {
    groups.iter().map(|g| g.iter().map(|n| n.cell).collect()).collect()
}

#[test]
fn hash_is_fnv1a() {
    assert_eq!(hash_text(""), 0xcbf29ce484222325);
    assert_eq!(hash_text("a"), 0xaf63dc4c8601ec8c);
    assert_eq!(hash_text("bd-12 → ü"), fnv("bd-12 → ü"));
}

#[test]
fn root_seeds_follow_dependencies() {
    let mut snapshot = TaskSnapshot::empty("/r".to_string());
    snapshot.tasks = vec![
        task("root", TaskStatus::Open, &[]),
        task("mid", TaskStatus::Open, &["root", "ghost"]),
        task("leaf", TaskStatus::Open, &["mid"]),
    ];
    let index = snapshot.task_index();
    let mut seeds = Vec::new();
    collect_root_seeds(&snapshot.tasks[2], &index, &snapshot.tasks, &mut seeds, 0);
    assert_eq!(seeds, vec![fnv("root"), fnv("ghost")]);
    let hue = lineage_hue_degrees(&snapshot.tasks[2], &index, &snapshot.tasks);
    assert_eq!(hue, (fnv("root") ^ fnv("ghost")) % 360);
    let own = lineage_hue_degrees(&snapshot.tasks[0], &index, &snapshot.tasks);
    assert_eq!(own, fnv("root") % 360);
}

#[test]
fn root_seeds_stop_after_three_steps() {
    let mut snapshot = TaskSnapshot::empty("/r".to_string());
    snapshot.tasks = vec![
        task("t0", TaskStatus::Open, &[]),
        task("t1", TaskStatus::Open, &["t0"]),
        task("t2", TaskStatus::Open, &["t1"]),
        task("t3", TaskStatus::Open, &["t2"]),
        task("t4", TaskStatus::Open, &["t3"]),
    ];
    let index = snapshot.task_index();
    let mut seeds = Vec::new();
    collect_root_seeds(&snapshot.tasks[3], &index, &snapshot.tasks, &mut seeds, 0);
    assert_eq!(seeds, vec![fnv("t0")]);
    let mut none = Vec::new();
    collect_root_seeds(&snapshot.tasks[4], &index, &snapshot.tasks, &mut none, 0);
    assert!(none.is_empty());
    // with no seeds the hue comes from the task's own id
    let hue = lineage_hue_degrees(&snapshot.tasks[4], &index, &snapshot.tasks);
    assert_eq!(hue, fnv("t4") % 360);
}

#[test]
fn trail_sort_keys() {
    let mut t = task("x", TaskStatus::InProgress, &[]);
    assert_eq!(claimed_sort_key(&t), None);
    assert_eq!(trail_sort_key(&t, TrailKind::Claimed), "x");
    t.updated_at = Some("u".to_string());
    assert_eq!(claimed_sort_key(&t).map(|s| s.as_str()), Some("u"));
    t.claimed_at = Some("c".to_string());
    assert_eq!(trail_sort_key(&t, TrailKind::Claimed), "c");
    t.completed_at = Some("d".to_string());
    assert_eq!(completed_sort_key(&t).map(|s| s.as_str()), Some("d"));
    assert!(task_matches_trail_kind(&t, TrailKind::Claimed));
    assert!(!task_matches_trail_kind(&t, TrailKind::Completed));
    assert!(task_matches_trail_kind(&task("y", TaskStatus::Done, &[]), TrailKind::Completed));
}

#[test]
fn task_trails_group_by_owner_and_time() {
    let mut snapshot = TaskSnapshot::empty("/r".to_string());
    let mut a = task("a", TaskStatus::InProgress, &[]);
    a.assignee = Some("zoe".to_string());
    a.claimed_at = Some("2024-02".to_string());
    let mut b = task("b", TaskStatus::InProgress, &[]);
    b.claimed_at = Some("2024-03".to_string());
    let mut c = task("c", TaskStatus::InProgress, &[]);
    c.assignee = Some("zoe".to_string());
    c.claimed_at = Some("2024-01".to_string());
    let d = task("d", TaskStatus::Open, &[]);
    let mut e = task("e", TaskStatus::InProgress, &[]);
    e.claimed_at = Some("2024-00".to_string());
    snapshot.tasks = vec![a, b, c, d, e];
    // cells show tasks 0..3; task 4 has no cell; task 0 shown twice (last cell wins)
    let cells = vec![0, 1, 2, 3, 0];
    let groups = task_trail_groups(&snapshot, &cells, TrailKind::Claimed);
    let owners: Vec<&str> = groups.iter().map(|g| g[0].owner.as_str()).collect();
    assert_eq!(owners, vec!["beads:shared", "zoe"]);
    assert_eq!(cells_of(&groups), vec![vec![1], vec![2, 4]]);
    match trail_groups(&snapshot, &cells, TrailKind::Claimed) {
        Err(fallback) => assert_eq!(cells_of(&fallback), vec![vec![1], vec![2, 4]]),
        Ok(_) => panic!("no activity trail expected"),
    }
}

#[test]
fn activity_trails_group_by_actor_and_drop_repeats() {
    let mut snapshot = TaskSnapshot::empty("/r".to_string());
    snapshot.tasks = vec![task("a", TaskStatus::Done, &[]), task("b", TaskStatus::Done, &[])];
    let event = |id: &str, actor: &str, at: &str, kind| TrailEvent {
        task_id: id.to_string(),
        actor: actor.to_string(),
        timestamp: at.to_string(),
        kind,
    };
    snapshot.trail_events = vec![
        event("b", "kim", "2", TrailEventKind::Completed),
        event("a", "kim", "1", TrailEventKind::Completed),
        event("a", "kim", "1", TrailEventKind::Completed),
        event("a", "al", "5", TrailEventKind::Completed),
        event("a", "al", "4", TrailEventKind::Claimed),
        event("zz", "al", "3", TrailEventKind::Completed),
    ];
    let cells = vec![1, 0];
    let groups = activity_trail_groups(&snapshot, &cells, TrailEventKind::Completed);
    let owners: Vec<&str> = groups.iter().map(|g| g[0].owner.as_str()).collect();
    assert_eq!(owners, vec!["al", "kim"]);
    assert_eq!(cells_of(&groups), vec![vec![1], vec![1, 0]]);
    let tasks: Vec<Vec<usize>> = groups.iter().map(|g| g.iter().map(|n| n.task_index).collect()).collect();
    assert_eq!(tasks, vec![vec![0], vec![0, 1]]);
    match trail_groups(&snapshot, &cells, TrailKind::Completed) {
        Ok(found) => assert_eq!(cells_of(&found), vec![vec![1], vec![1, 0]]),
        Err(_) => panic!("activity trail expected"),
    }
}

#[test]
fn stable_sort_keeps_equal_keys_in_order() {
    let mk = |owner: &str, at: &str, cell| TrailNode {
        owner: owner.to_string(),
        task_index: 0,
        cell,
        timestamp: at.to_string(),
    };
    let sorted = sort_by_key_vec(vec![mk("b", "1", 0), mk("a", "2", 1), mk("a", "1", 2), mk("a", "2", 3)]);
    let cells: Vec<usize> = sorted.iter().map(|n| n.cell).collect();
    assert_eq!(cells, vec![2, 1, 3, 0]);
}

#[test]
fn render_output_holds_hover() {
    let output = GlobeRenderOutput { hovered_task: Some(3) };
    assert_eq!(output.hovered_task, Some(3));
}

#[test]
fn completion_animation_starts_on_new_completion() {
    let mut timers: CompletionTimers<u64> = CompletionTimers::new();
    let before = vec![task("a", TaskStatus::Open, &[]), task("b", TaskStatus::Done, &[])];
    let previous = DoneStates::from_tasks(&before);
    assert!(!previous.was_done(&"a".to_string()));
    assert!(previous.was_done(&"b".to_string()));
    assert!(!DoneStates::new().was_done(&"b".to_string()));
    timers.insert("gone".to_string(), 1);
    timers.insert("b".to_string(), 2);
    let now = vec![
        task("a", TaskStatus::Done, &[]),
        task("b", TaskStatus::Done, &[]),
        task("c", TaskStatus::Open, &[]),
    ];
    update_completion_animations(&mut timers, &previous, &now, 10);
    assert_eq!(timers.get(&"a".to_string()), Some(10));
    assert_eq!(timers.get(&"b".to_string()), Some(2));
    assert_eq!(timers.get(&"c".to_string()), None);
    assert_eq!(timers.get(&"gone".to_string()), None);
    let reopened = vec![task("a", TaskStatus::Open, &[])];
    let previous = DoneStates::from_tasks(&now);
    update_completion_animations(&mut timers, &previous, &reopened, 20);
    assert_eq!(timers.get(&"a".to_string()), None);
    timers.insert("a".to_string(), 30);
    timers.remove(&"a".to_string());
    assert_eq!(timers.get(&"a".to_string()), None);
}

#[test]
fn root_seeds_at_any_depth_and_with_a_partial_index() {
    let tasks = vec![
        task("a", TaskStatus::Open, &[]),
        task("b", TaskStatus::Open, &["a"]),
        task("c", TaskStatus::Open, &["b"]),
    ];
    // An index of the first two tasks only: "c" is then unknown to it.
    let partial = geomancer::model::TaskIndex::from_tasks(&tasks[..2].to_vec());
    let mut seeds = vec![7u64];
    collect_root_seeds(&task("d", TaskStatus::Open, &["c", "b"]), &partial, &tasks, &mut seeds, 0);
    assert_eq!(seeds, vec![7, fnv("c"), fnv("a")]);
    // Past three steps nothing is added, however deep.
    let mut deep = vec![1u64];
    collect_root_seeds(&tasks[2], &partial, &tasks, &mut deep, 9);
    assert_eq!(deep, vec![1]);
    collect_root_seeds(&tasks[0], &partial, &tasks, &mut deep, 3);
    assert_eq!(deep, vec![1, fnv("a")]);
}

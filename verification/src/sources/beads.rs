//! Tasks from a beads repository: the issues that `bd list --json` reports,
//! the warnings it prints, and the claim/completion trail of `bd activity`.
use vstd::prelude::*;
use crate::json::{
    JsonValue, find_string, key_value, string_of, strings_in, strings_in_members, key_texts, get, find_first_string,
    collect_strings,
};
use crate::model::{
    Task, TaskStatus, TrailEvent, TrailEventKind, EventView, status_from_raw, texts,
};
use crate::sorting::{sort_by_key, sort_by_key_vec, lemma_sort_by_key_map};
use crate::sources::SourceLoadResult;
use crate::text::{
    join_path, lines_seq, lower_seq, trim_seq, starts_with_seq, contains_seq, char_rows,
    join_path_text, chars_of, lines_of, trim_chars, chars_start_with, string_from_chars, trim,
    concat, eq_ignore_ascii_case, contains, text_eq,
};

verus! {

/// One dependency of an issue, as `bd` reports it.
#[derive(Debug)]
pub struct BeadDependency {
    pub depends_on_id: String,
}

/// One issue, as `bd list --json` reports it.
#[derive(Debug)]
pub struct BeadIssue {
    pub id: String,
    pub title: String,
    pub status: String,
    pub owner: Option<String>,
    pub closed_at: Option<String>,
    pub updated_at: Option<String>,
    pub dependencies: Option<Vec<BeadDependency>>,
}

/// How running `bd list --json` went.
pub enum ListOutcome {
    /// The command could not be run; the error's message.
    SpawnFailed(String),
    /// The command ran. `issues` is its output read as a list of issues, or
    /// the message of the error that reading it gave.
    Exited { success: bool, issues: Result<Vec<BeadIssue>, String>, stderr: Vec<u8> },
}

// ---------------------------------------------------------------------------
// Decoding of the command's error output
// ---------------------------------------------------------------------------

/// The text that `String::from_utf8_lossy` makes of `bytes`.
pub uninterp spec fn utf8_lossy(bytes: Seq<u8>) -> Seq<char>;

/// `String::from_utf8_lossy`: decodes UTF-8, putting U+FFFD in place of each
/// invalid sequence. The result is named by `utf8_lossy` and is, as its
/// documentation says, the plain decoding when the bytes are valid UTF-8; the
/// replacement rule itself is not stated.
#[verifier::external_body]
fn from_utf8_lossy(bytes: &[u8]) -> (r: String)
    ensures
        r@ == utf8_lossy(bytes@),
        vstd::utf8::valid_utf8(bytes@) ==> r@ == vstd::utf8::decode_utf8(bytes@),
{
    String::from_utf8_lossy(bytes).into_owned()
}

// ---------------------------------------------------------------------------
// Warnings
// ---------------------------------------------------------------------------

/// A trimmed line of `bd`'s error output that is worth showing: not empty
/// and not one of the daemon start-up notices.
pub open spec fn is_shown_warning(line: Seq<char>) -> bool {
    &&& line.len() > 0
    &&& !starts_with_seq(line, "Warning: Daemon took too long"@)
    &&& !starts_with_seq(line, "Hint: Run 'bd doctor'"@)
}

/// The trimmed lines that are shown, in order.
pub open spec fn shown_warnings(lines: Seq<Seq<char>>) -> Seq<Seq<char>>
    decreases lines.len(),
{
    if lines.len() == 0 {
        seq![]
    } else {
        let rest = shown_warnings(lines.drop_last());
        let l = trim_seq(lines.last());
        if is_shown_warning(l) {
            rest.push(l)
        } else {
            rest
        }
    }
}

/// Only worthwhile lines are shown: every shown warning is a non-empty
/// trimmed line of the output that is no daemon notice.
pub proof fn lemma_shown_warnings_are_relevant(lines: Seq<Seq<char>>)
    ensures
        forall|i: int|
            0 <= i < shown_warnings(lines).len() ==> is_shown_warning(
                #[trigger] shown_warnings(lines)[i],
            ) && exists|j: int| 0 <= j < lines.len() && shown_warnings(lines)[i] == trim_seq(
                #[trigger] lines[j],
            ),
    decreases lines.len(),
{
    if lines.len() > 0 {
        let p = lines.drop_last();
        lemma_shown_warnings_are_relevant(p);
        let r = shown_warnings(lines);
        assert forall|i: int| 0 <= i < r.len() implies is_shown_warning(#[trigger] r[i])
            && exists|j: int| 0 <= j < lines.len() && r[i] == trim_seq(#[trigger] lines[j]) by {
            if i < shown_warnings(p).len() {
                assert(r[i] == shown_warnings(p)[i]);
                let j = choose|j: int| 0 <= j < p.len() && shown_warnings(p)[i] == trim_seq(#[trigger] p[j]);
                assert(lines[j] == p[j]);
            } else {
                assert(r[i] == trim_seq(lines[lines.len() - 1]));
            }
        }
    }
}

/// The warnings of an error output text: its lines, trimmed, without the
/// empty ones and the daemon notices.
pub open spec fn warnings_of_text(text: Seq<char>) -> Seq<Seq<char>> {
    shown_warnings(lines_seq(text))
}

/// The warnings in `bd`'s error output, once decoded to text.
pub fn warnings_from_text(text: &str) -> (r: Vec<String>)
    ensures
        texts(r@) == warnings_of_text(text@),
{
    let cs = chars_of(text);
    let lines = lines_of(&cs);
    let p1 = chars_of("Warning: Daemon took too long");
    let p2 = chars_of("Hint: Run 'bd doctor'");
    let mut out: Vec<String> = Vec::new();
    let mut i: usize = 0;
    assert(char_rows(lines@).take(0) =~= Seq::<Seq<char>>::empty());
    while i < lines.len()
        invariant
            i <= lines.len(),
            char_rows(lines@) == lines_seq(text@),
            p1@ == "Warning: Daemon took too long"@,
            p2@ == "Hint: Run 'bd doctor'"@,
            texts(out@) == shown_warnings(char_rows(lines@).take(i as int)),
        decreases lines.len() - i,
    {
        let t = trim_chars(&lines[i]);
        assert(char_rows(lines@)[i as int] == lines@[i as int]@);
        assert(t@.skip(0) =~= t@);
        assert(char_rows(lines@).take(i + 1).drop_last() =~= char_rows(lines@).take(i as int));
        if t.len() > 0 && !chars_start_with(&t, 0, &p1) && !chars_start_with(&t, 0, &p2) {
            let ghost before = out@;
            out.push(string_from_chars(&t));
            assert(texts(out@) =~= texts(before).push(t@));
        }
        i += 1;
    }
    assert(char_rows(lines@).take(i as int) =~= char_rows(lines@));
    out
}

/// The warnings in `bd`'s error output: the output is
/// decoded as `from_utf8_lossy` does and then read by `warnings_from_text`.
pub fn parse_warnings(stderr: &[u8]) -> (r: Vec<String>)
    ensures
        texts(r@) == warnings_of_text(utf8_lossy(stderr@)),
        vstd::utf8::valid_utf8(stderr@) ==> texts(r@) == warnings_of_text(
            vstd::utf8::decode_utf8(stderr@),
        ),
{
    let text = from_utf8_lossy(stderr);
    warnings_from_text(text.as_str())
}

// ---------------------------------------------------------------------------
// Issues
// ---------------------------------------------------------------------------

/// The text of an optional text.
pub open spec fn opt_text(o: Option<String>) -> Option<Seq<char>> {
    match o {
        Some(s) => Some(s@),
        None => None,
    }
}

/// The ids that an issue depends on, in order (none when it lists none).
pub open spec fn dependency_texts(d: Option<Vec<BeadDependency>>) -> Seq<Seq<char>> {
    match d {
        Some(v) => v@.map_values(|x: BeadDependency| x.depends_on_id@),
        None => seq![],
    }
}

/// The directory whose presence marks a beads repository.
pub open spec fn beads_dir_of(root: Seq<char>) -> Seq<char> {
    join_path(root, ".beads"@)
}

/// `t` is the task made of issue `i` of the repository whose `.beads`
/// directory is `path`: the issue's id, title and owner; its status
/// normalized; claimed when it was last updated if its raw status is
/// `in_progress` in any ASCII case; completed when it was closed.
pub open spec fn is_task_of_issue(t: Task, i: BeadIssue, path: Seq<char>) -> bool {
    &&& t.id@ == i.id@
    &&& t.title@ == i.title@
    &&& t.status@ == status_from_raw(i.status@)
    &&& t.source@ == "beads"@
    &&& opt_text(t.source_path) == Some(path)
    &&& opt_text(t.assignee) == opt_text(i.owner)
    &&& opt_text(t.claimed_at) == (if lower_seq(i.status@) == lower_seq("in_progress"@) {
        opt_text(i.updated_at)
    } else {
        None
    })
    &&& opt_text(t.completed_at) == opt_text(i.closed_at)
    &&& opt_text(t.updated_at) == opt_text(i.updated_at)
    &&& texts(t.dependency_ids@) == dependency_texts(i.dependencies)
    &&& t.dependent_ids@.len() == 0
    &&& t.url is None
}

/// Only an issue whose raw status is `in_progress`, in any ASCII case, gives
/// a task with a claim time, and that time is the issue's last update; such
/// a task is in progress. An issue with any other status gives a task that
/// was never claimed.
pub proof fn lemma_claim_time_only_in_progress(t: Task, i: BeadIssue, path: Seq<char>)
    requires
        is_task_of_issue(t, i, path),
    ensures
        t.claimed_at is Some ==> lower_seq(i.status@) == "in_progress"@,
        lower_seq(i.status@) != "in_progress"@ ==> t.claimed_at is None,
        lower_seq(i.status@) == "in_progress"@ ==> opt_text(t.claimed_at) == opt_text(i.updated_at)
            && (t.status@ is InProgress),
{
    reveal_strlit("in_progress");
    reveal_strlit("open");
    reveal_strlit("todo");
    reveal_strlit("pending");
    assert(lower_seq("in_progress"@) =~= "in_progress"@);
    if lower_seq(i.status@) == "in_progress"@ {
        assert("in_progress"@ != "open"@);
        assert("in_progress"@ != "todo"@);
        assert("in_progress"@ != "pending"@);
    }
    if t.claimed_at is Some {
        assert(opt_text(t.claimed_at) is Some);
    }
}

/// The `.beads` directory of a repository, displayed.
pub fn beads_dir(root: &str) -> (r: String)
    ensures
        r@ == beads_dir_of(root@),
{
    join_path_text(root, ".beads")
}

fn clone_opt(o: &Option<String>) -> (r: Option<String>)
    ensures
        opt_text(r) == opt_text(*o),
{
    match o {
        Some(s) => Some(s.clone()),
        None => None,
    }
}

/// The task that an issue of the repository with `.beads` directory `path` becomes.
pub fn task_from_issue(issue: BeadIssue, path: &String) -> (t: Task)
    ensures
        is_task_of_issue(t, issue, path@),
{
    let ghost i = issue;
    let status = TaskStatus::from_raw(issue.status.as_str());
    let claimed_at = if eq_ignore_ascii_case(issue.status.as_str(), "in_progress") {
        clone_opt(&issue.updated_at)
    } else {
        None
    };
    let mut dependency_ids: Vec<String> = Vec::new();
    match issue.dependencies {
        Some(deps) => {
            let mut k: usize = 0;
            while k < deps.len()
                invariant
                    k <= deps.len(),
                    dependency_ids@.len() == k,
                    forall|j: int|
                        0 <= j < k ==> #[trigger] dependency_ids@[j]@ == deps@[j].depends_on_id@,
                decreases deps.len() - k,
            {
                dependency_ids.push(deps[k].depends_on_id.clone());
                k += 1;
            }
            assert(texts(dependency_ids@) =~= dependency_texts(i.dependencies));
        },
        None => {
            assert(texts(dependency_ids@) =~= dependency_texts(i.dependencies));
        },
    }
    Task {
        id: issue.id,
        title: issue.title,
        status,
        source: String::from_str("beads"),
        source_path: Some(path.clone()),
        assignee: issue.owner,
        claimed_at,
        completed_at: issue.closed_at,
        updated_at: issue.updated_at,
        dependency_ids,
        dependent_ids: Vec::new(),
        url: None,
    }
}

// ---------------------------------------------------------------------------
// Activity trail
// ---------------------------------------------------------------------------

/// A lower-cased text that marks a claim.
pub open spec fn is_claim_text(s: Seq<char>) -> bool {
    s == "\u{2192}"@ || contains_seq(s, "in_progress"@) || contains_seq(s, "started"@)
        || contains_seq(s, "working"@)
}

/// A lower-cased text that marks a completion.
pub open spec fn is_completion_text(s: Seq<char>) -> bool {
    s == "\u{2713}"@ || contains_seq(s, "complete"@) || contains_seq(s, "closed"@) || contains_seq(
        s,
        "done"@,
    )
}

/// The kind of an activity entry: a claim when any of its strings marks one,
/// else a completion when any marks one, else none.
pub open spec fn activity_kind(v: JsonValue) -> Option<TrailEventKind> {
    let ss = strings_in(v);
    if exists|i: int| 0 <= i < ss.len() && is_claim_text(#[trigger] ss[i]) {
        Some(TrailEventKind::Claimed)
    } else if exists|i: int| 0 <= i < ss.len() && is_completion_text(#[trigger] ss[i]) {
        Some(TrailEventKind::Completed)
    } else {
        None
    }
}

proof fn lemma_member_string_in(members: Seq<(String, JsonValue)>, k: int, text: String)
    requires
        0 <= k < members.len(),
        members[k].1 == JsonValue::String(text),
    ensures
        strings_in_members(members).contains(lower_seq(text@)),
    decreases members.len(),
{
    let rest = members.drop_first();
    if k == 0 {
        assert(strings_in(members[0].1) == seq![lower_seq(text@)]);
        assert(strings_in_members(members) == strings_in(members[0].1) + strings_in_members(rest));
        assert(strings_in_members(members)[0] == lower_seq(text@));
    } else {
        assert(rest[k - 1] == members[k]);
        lemma_member_string_in(rest, k - 1, text);
        let j = choose|j: int| 0 <= j < strings_in_members(rest).len() && strings_in_members(rest)[j]
            == lower_seq(text@);
        let head = strings_in(members[0].1);
        assert(strings_in_members(members) == head + strings_in_members(rest));
        assert(strings_in_members(members)[head.len() + j] == lower_seq(text@));
    }
}

/// An activity entry that has a member whose string, ASCII lower-cased,
/// mentions `in_progress`, `started` or `working`, or is the arrow `→`, is a
/// claim, whatever its other members say.
pub proof fn lemma_claim_words_make_claims(members: Vec<(String, JsonValue)>, k: int, text: String)
    requires
        0 <= k < members@.len(),
        members@[k].1 == JsonValue::String(text),
        lower_seq(text@) == "\u{2192}"@ || contains_seq(lower_seq(text@), "in_progress"@)
            || contains_seq(lower_seq(text@), "started"@) || contains_seq(lower_seq(text@), "working"@),
    ensures
        activity_kind(JsonValue::Object(members)) == Some(TrailEventKind::Claimed),
{
    lemma_member_string_in(members@, k, text);
    let ss = strings_in(JsonValue::Object(members));
    let j = choose|j: int| 0 <= j < ss.len() && ss[j] == lower_seq(text@);
    assert(is_claim_text(ss[j]));
}

/// An activity entry is a claim exactly when one of its strings, ASCII
/// lower-cased, mentions `in_progress`, `started` or `working`, or is the
/// arrow; it is a completion exactly when none does and one mentions
/// `complete`, `closed` or `done`, or is the check mark `✓`; otherwise it
/// has no kind.
pub proof fn lemma_activity_kind_words(v: JsonValue)
    ensures
        activity_kind(v) == Some(TrailEventKind::Claimed) <==> exists|i: int|
            0 <= i < strings_in(v).len() && {
                let s = #[trigger] strings_in(v)[i];
                s == "\u{2192}"@ || contains_seq(s, "in_progress"@) || contains_seq(s, "started"@)
                    || contains_seq(s, "working"@)
            },
        activity_kind(v) == Some(TrailEventKind::Completed) <==> (!exists|i: int|
            0 <= i < strings_in(v).len() && {
                let s = #[trigger] strings_in(v)[i];
                s == "\u{2192}"@ || contains_seq(s, "in_progress"@) || contains_seq(s, "started"@)
                    || contains_seq(s, "working"@)
            }) && exists|i: int|
            0 <= i < strings_in(v).len() && {
                let s = #[trigger] strings_in(v)[i];
                s == "\u{2713}"@ || contains_seq(s, "complete"@) || contains_seq(s, "closed"@)
                    || contains_seq(s, "done"@)
            },
        activity_kind(v) is None <==> !exists|i: int|
            0 <= i < strings_in(v).len() && {
                let s = #[trigger] strings_in(v)[i];
                s == "\u{2192}"@ || contains_seq(s, "in_progress"@) || contains_seq(s, "started"@)
                    || contains_seq(s, "working"@) || s == "\u{2713}"@ || contains_seq(s, "complete"@)
                    || contains_seq(s, "closed"@) || contains_seq(s, "done"@)
            },
{
}

/// The task an activity entry is about: the string `issue.id` when there is
/// one, else the first string under `issue_id` or `id` found in the entry.
pub open spec fn activity_task_id(v: JsonValue) -> Option<Seq<char>> {
    let direct = match key_value(v, "issue"@) {
        Some(issue) => string_of(key_value(issue, "id"@)),
        None => None,
    };
    match direct {
        Some(id) => Some(id),
        None => find_string(v, seq!["issue_id"@, "id"@]),
    }
}

/// The keys under which an activity entry gives its time, by preference.
pub open spec fn timestamp_keys() -> Seq<Seq<char>> {
    seq![
        "timestamp"@,
        "occurred_at"@,
        "created_at"@,
        "updated_at"@,
        "closed_at"@,
        "at"@,
        "time"@,
    ]
}

/// The keys under which an activity entry gives its actor, by preference.
pub open spec fn actor_keys() -> Seq<Seq<char>> {
    seq!["actor"@, "owner"@, "created_by"@, "updated_by"@]
}

/// The trail event that an activity entry stands for: it needs a kind, a
/// task and a time; the actor is `shared` when none is named.
pub open spec fn activity_event(v: JsonValue) -> Option<EventView> {
    match (activity_kind(v), activity_task_id(v), find_string(v, timestamp_keys())) {
        (Some(kind), Some(task_id), Some(timestamp)) => Some(
            EventView {
                task_id,
                actor: match find_string(v, actor_keys()) {
                    Some(a) => a,
                    None => "shared"@,
                },
                timestamp,
                kind,
            },
        ),
        _ => None,
    }
}

/// The trail events of the entries, in entry order.
pub open spec fn activity_events(values: Seq<JsonValue>) -> Seq<EventView>
    decreases values.len(),
{
    if values.len() == 0 {
        seq![]
    } else {
        let rest = activity_events(values.drop_last());
        match activity_event(values.last()) {
            Some(e) => rest.push(e),
            None => rest,
        }
    }
}

/// The views of a sequence of trail events.
pub open spec fn event_views(events: Seq<TrailEvent>) -> Seq<EventView> {
    events.map_values(|e: TrailEvent| e@)
}

/// The kind of an activity entry: a claim when one of its strings speaks
/// of starting work, else a completion when one speaks of finishing it.
pub fn classify_activity_kind(value: &JsonValue) -> (r: Option<TrailEventKind>)
    ensures
        r == activity_kind(*value),
{
    let strings = collect_strings(value);
    let ghost ss = strings_in(*value);
    let mut i: usize = 0;
    while i < strings.len()
        invariant
            i <= strings.len(),
            key_texts(strings@) == ss,
            ss == strings_in(*value),
            forall|j: int| 0 <= j < i ==> !is_claim_text(#[trigger] ss[j]),
        decreases strings.len() - i,
    {
        let s = strings[i].as_str();
        assert(ss[i as int] == s@);
        if text_eq(s, "\u{2192}") || contains(s, "in_progress") || contains(s, "started")
            || contains(s, "working") {
            assert(is_claim_text(ss[i as int]));
            return Some(TrailEventKind::Claimed);
        }
        i += 1;
    }
    let mut i: usize = 0;
    while i < strings.len()
        invariant
            i <= strings.len(),
            key_texts(strings@) == ss,
            ss == strings_in(*value),
            forall|j: int| 0 <= j < ss.len() ==> !is_claim_text(#[trigger] ss[j]),
            forall|j: int| 0 <= j < i ==> !is_completion_text(#[trigger] ss[j]),
        decreases strings.len() - i,
    {
        let s = strings[i].as_str();
        assert(ss[i as int] == s@);
        if text_eq(s, "\u{2713}") || contains(s, "complete") || contains(s, "closed") || contains(
            s,
            "done",
        ) {
            assert(is_completion_text(ss[i as int]));
            return Some(TrailEventKind::Completed);
        }
        i += 1;
    }
    None
}

/// The task an activity entry is about.
pub fn extract_task_id(value: &JsonValue) -> (r: Option<&String>)
    ensures
        match r {
            Some(s) => activity_task_id(*value) == Some(s@),
            None => activity_task_id(*value) is None,
        },
{
    let issue_key = String::from_str("issue");
    let id_key = String::from_str("id");
    if let Some(issue) = get(value, &issue_key) {
        if let Some(JsonValue::String(s)) = get(issue, &id_key) {
            return Some(s);
        }
    }
    let mut keys: Vec<String> = Vec::new();
    keys.push(String::from_str("issue_id"));
    keys.push(String::from_str("id"));
    assert(key_texts(keys@) =~= seq!["issue_id"@, "id"@]);
    find_first_string(value, &keys)
}

fn make_keys(words: &[&str]) -> (r: Vec<String>)
    ensures
        key_texts(r@) == words@.map_values(|w: &str| w@),
{
    let mut out: Vec<String> = Vec::new();
    let mut i: usize = 0;
    while i < words.len()
        invariant
            i <= words.len(),
            out@.len() == i,
            forall|j: int| 0 <= j < i ==> #[trigger] out@[j]@ == words@[j]@,
        decreases words.len() - i,
    {
        out.push(String::from_str(words[i]));
        i += 1;
    }
    assert(key_texts(out@) =~= words@.map_values(|w: &str| w@));
    out
}

/// The trail events of an activity feed, ordered by timestamp; entries
/// without a kind, a task or a time are left out. The feed is given as the
/// JSON values it holds.
pub fn parse_activity_events(values: &Vec<JsonValue>) -> (r: Vec<TrailEvent>)
    ensures
        event_views(r@) == sort_by_key(activity_events(values@)),
{
    let time_words: [&str; 7] = [
        "timestamp",
        "occurred_at",
        "created_at",
        "updated_at",
        "closed_at",
        "at",
        "time",
    ];
    let time_keys = make_keys(&time_words);
    assert(key_texts(time_keys@) =~= timestamp_keys());
    let actor_words: [&str; 4] = ["actor", "owner", "created_by", "updated_by"];
    let actor_list = make_keys(&actor_words);
    assert(key_texts(actor_list@) =~= actor_keys());
    let mut events: Vec<TrailEvent> = Vec::new();
    let mut i: usize = 0;
    assert(values@.take(0) =~= Seq::<JsonValue>::empty());
    while i < values.len()
        invariant
            i <= values.len(),
            key_texts(time_keys@) == timestamp_keys(),
            key_texts(actor_list@) == actor_keys(),
            event_views(events@) == activity_events(values@.take(i as int)),
        decreases values.len() - i,
    {
        let value = &values[i];
        assert(values@.take(i + 1).drop_last() =~= values@.take(i as int));
        assert(values@.take(i + 1).last() == *value);
        let kind = classify_activity_kind(value);
        let task_id = extract_task_id(value);
        let timestamp = find_first_string(value, &time_keys);
        match (kind, task_id, timestamp) {
            (Some(kind), Some(task_id), Some(timestamp)) => {
                let actor = match find_first_string(value, &actor_list) {
                    Some(a) => a.clone(),
                    None => String::from_str("shared"),
                };
                let event = TrailEvent {
                    task_id: task_id.clone(),
                    actor,
                    timestamp: timestamp.clone(),
                    kind,
                };
                let ghost before = events@;
                events.push(event);
                assert(event_views(events@) =~= event_views(before).push(event@));
            },
            _ => {},
        }
        i += 1;
    }
    assert(values@.take(i as int) =~= values@);
    let sorted = sort_by_key_vec(events);
    proof {
        lemma_sort_by_key_map(events@, |e: TrailEvent| e@);
    }
    sorted
}

// ---------------------------------------------------------------------------
// Reading the activity feed
// ---------------------------------------------------------------------------

#[verifier::external_type_specification]
#[verifier::external_body]
pub struct ExJsonDocumentValue(serde_json::Value);

/// What `serde_json` makes of `bytes` read as a list of JSON values: the
/// values, or the text of the error when they do not hold a JSON list.
pub uninterp spec fn json_list_of(bytes: Seq<u8>) -> Result<Seq<JsonValue>, Seq<char>>;

/// Moves a parsed `serde_json::Value` into a `JsonValue`, variant by variant:
/// a number keeps its text, and an object keeps its members in the order in
/// which its map walks them. Nothing is claimed of the result.
#[verifier::external_body]
fn json_from_serde(value: serde_json::Value) -> JsonValue {
    match value {
        serde_json::Value::Null => JsonValue::Null,
        serde_json::Value::Bool(flag) => JsonValue::Bool(flag),
        serde_json::Value::Number(number) => JsonValue::Number(number.to_string()),
        serde_json::Value::String(text) => JsonValue::String(text),
        serde_json::Value::Array(items) => JsonValue::Array(items.into_iter().map(json_from_serde).collect()),
        serde_json::Value::Object(members) => JsonValue::Object(
            members.into_iter().map(|(key, item)| (key, json_from_serde(item))).collect(),
        ),
    }
}

/// `serde_json::from_slice` into a list of `serde_json::Value`, each moved
/// into a `JsonValue`, or the text of its error. The claim: the values read,
/// or the error's text, are those named by `json_list_of` for the bytes.
#[verifier::external_body]
fn parse_json_list(bytes: &[u8]) -> (r: Result<Vec<JsonValue>, String>)
    ensures
        match r {
            Ok(values) => json_list_of(bytes@) == Ok::<Seq<JsonValue>, Seq<char>>(values@),
            Err(e) => json_list_of(bytes@) == Err::<Seq<JsonValue>, Seq<char>>(e@),
        },
{
    serde_json::from_slice::<Vec<serde_json::Value>>(bytes)
        .map(|values| values.into_iter().map(json_from_serde).collect())
        .map_err(|error| error.to_string())
}

/// The error given for a feed that is not a JSON list, whose reading failed
/// with the error text `e`.
pub open spec fn activity_parse_error(e: Seq<char>) -> Seq<char> {
    "failed to parse `bd activity` JSON: "@ + e
}

/// The trail events in the output of `bd activity --json`: the output is read
/// as a JSON list and its entries as by `parse_activity_events`; an output
/// that is not a JSON list gives an error that says so, followed by the
/// reader's error.
pub fn parse_activity_output(stdout: &[u8]) -> (r: Result<Vec<TrailEvent>, String>)
    ensures
        match json_list_of(stdout@) {
            Ok(values) => r matches Ok(events) && event_views(events@) == sort_by_key(
                activity_events(values),
            ),
            Err(e) => r matches Err(m) && m@ == activity_parse_error(e),
        },
{
    match parse_json_list(stdout) {
        Ok(values) => Ok(parse_activity_events(&values)),
        Err(error) => {
            Err(concat("failed to parse `bd activity` JSON: ", error.as_str()))
        },
    }
}

/// How running `bd activity --json` went.
pub enum ActivityOutcome {
    /// The command could not be run; the error's message.
    SpawnFailed(String),
    /// The command ran: whether it succeeded, and what it printed.
    Exited { success: bool, stdout: Vec<u8> },
}

/// The trail events that a run of `bd activity` gives: none when the
/// command could not run, failed, or printed no JSON list.
pub open spec fn activity_outcome_events(outcome: ActivityOutcome) -> Seq<EventView> {
    match outcome {
        ActivityOutcome::SpawnFailed(_) => seq![],
        ActivityOutcome::Exited { success, stdout } => if !success {
            seq![]
        } else {
            match json_list_of(stdout@) {
                Ok(values) => sort_by_key(activity_events(values)),
                Err(_) => seq![],
            }
        },
    }
}

/// The trail events of a run of `bd activity`: an error naming the command
/// when it could not run, no events when it failed, and else its output read
/// by `parse_activity_output`.
pub fn load_activity(outcome: ActivityOutcome) -> (r: Result<Vec<TrailEvent>, String>)
    ensures
        match outcome {
            ActivityOutcome::SpawnFailed(e) => r matches Err(m) && m@
                == "failed to execute `bd activity --json`: "@ + e@,
            ActivityOutcome::Exited { success, stdout } => if !success {
                r matches Ok(events) && events@.len() == 0
            } else {
                match json_list_of(stdout@) {
                    Ok(values) => r matches Ok(events) && event_views(events@) == sort_by_key(
                        activity_events(values),
                    ),
                    Err(e) => r matches Err(m) && m@ == activity_parse_error(e),
                }
            },
        },
{
    match outcome {
        ActivityOutcome::SpawnFailed(e) => Err(concat("failed to execute `bd activity --json`: ", e.as_str())),
        ActivityOutcome::Exited { success, stdout } => {
            if !success {
                return Ok(Vec::new());
            }
            parse_activity_output(stdout.as_slice())
        },
    }
}

/// The trail events of the activity run, if it was run; any failure gives
/// none.
pub open spec fn activity_run_events(activity: Option<ActivityOutcome>) -> Seq<EventView> {
    match activity {
        Some(outcome) => activity_outcome_events(outcome),
        None => seq![],
    }
}

// ---------------------------------------------------------------------------
// Loading
// ---------------------------------------------------------------------------

/// What loading a beads repository whose root displays as `root` gives,
/// given how `bd list --json` went and how `bd activity --json` went (none
/// when it was not run, which is only done once the list was read):
/// - the command could not run: an error naming `bd list --json` and the cause;
/// - it failed: its error output, trimmed;
/// - its output was not a list of issues: an error naming the JSON and the cause;
/// - else the tasks of the issues in order, the warnings of its error
///   output, and the trail events of the feed.
pub open spec fn load_outcome_ok(
    root: Seq<char>,
    list: ListOutcome,
    activity: Option<ActivityOutcome>,
    r: Result<SourceLoadResult, String>,
) -> bool {
    match list {
        ListOutcome::SpawnFailed(e) => r matches Err(m) && m@ == "failed to execute `bd list --json`: "@
            + e@,
        ListOutcome::Exited { success, issues, stderr } => if !success {
            r matches Err(m) && m@ == trim_seq(utf8_lossy(stderr@))
        } else {
            match issues {
                Err(e) => r matches Err(m) && m@ == "failed to parse `bd` JSON: "@ + e@,
                Ok(issues) => r matches Ok(res) && {
                    &&& res.tasks@.len() == issues@.len()
                    &&& forall|k: int|
                        0 <= k < issues@.len() ==> is_task_of_issue(
                            #[trigger] res.tasks@[k],
                            issues@[k],
                            beads_dir_of(root),
                        )
                    &&& texts(res.warnings@) == warnings_of_text(utf8_lossy(stderr@))
                    &&& event_views(res.trail_events@) == activity_run_events(activity)
                },
            }
        },
    }
}

/// Loads the tasks of a beads repository from what its `bd` commands gave.
pub fn load(root: &str, list: ListOutcome, activity: Option<ActivityOutcome>) -> (r: Result<
    SourceLoadResult,
    String,
>)
    ensures
        load_outcome_ok(root@, list, activity, r),
{
    let ghost list0 = list;
    let ghost activity0 = activity;
    match list {
        ListOutcome::SpawnFailed(e) => Err(concat("failed to execute `bd list --json`: ", e.as_str())),
        ListOutcome::Exited { success, issues, stderr } => {
            if !success {
                let text = from_utf8_lossy(stderr.as_slice());
                return Err(trim(text.as_str()));
            }
            match issues {
                Err(e) => Err(concat("failed to parse `bd` JSON: ", e.as_str())),
                Ok(issues) => {
                    let ghost all = issues@;
                    let warnings = parse_warnings(stderr.as_slice());
                    let trail_events = match activity {
                        Some(outcome) => match load_activity(outcome) {
                            Ok(events) => events,
                            Err(_) => Vec::new(),
                        },
                        None => Vec::new(),
                    };
                    assert(event_views(trail_events@) =~= activity_run_events(activity0));
                    let path = beads_dir(root);
                    let mut tasks: Vec<Task> = Vec::new();
                    let mut rest = issues;
                    let n = rest.len();
                    while rest.len() > 0
                        invariant
                            n == all.len(),
                            rest.len() <= n,
                            rest@ == all.skip(n - rest.len()),
                            tasks@.len() == n - rest.len(),
                            path@ == beads_dir_of(root@),
                            forall|k: int|
                                0 <= k < tasks@.len() ==> is_task_of_issue(
                                    #[trigger] tasks@[k],
                                    all[k],
                                    path@,
                                ),
                        decreases rest.len(),
                    {
                        let ghost k = n - rest.len();
                        let issue = rest.remove(0);
                        assert(issue == all[k]);
                        tasks.push(task_from_issue(issue, &path));
                        assert(rest@ =~= all.skip(n - rest.len()));
                    }
                    Ok(SourceLoadResult { tasks, warnings, trail_events })
                },
            }
        },
    }
}

} // verus!

//! The normalized task model shared by every source and by the globe: task
//! statuses, tasks, trail events, source summaries, snapshots and their
//! aggregate counts.
use vstd::prelude::*;
use crate::text::{lower_seq, lower_char, to_ascii_lowercase, text_eq, text_less, lemma_text_lt_irreflexive};
use crate::sorting::{SortKey, KeyLess, keys_lt};

verus! {

/// A task's status, normalized from the words that trackers use.
#[derive(Clone, Debug)]
pub enum TaskStatus {
    Open,
    InProgress,
    Blocked,
    Done,
    Unknown(String),
}

/// What a `TaskStatus` denotes.
pub enum StatusView {
    Open,
    InProgress,
    Blocked,
    Done,
    Unknown(Seq<char>),
}

impl View for TaskStatus {
    type V = StatusView;

    open spec fn view(&self) -> StatusView {
        match self {
            TaskStatus::Open => StatusView::Open,
            TaskStatus::InProgress => StatusView::InProgress,
            TaskStatus::Blocked => StatusView::Blocked,
            TaskStatus::Done => StatusView::Done,
            TaskStatus::Unknown(s) => StatusView::Unknown(s@),
        }
    }
}

/// Lower-cased words that mean "open".
pub open spec fn is_open_word(w: Seq<char>) -> bool {
    w == "open"@ || w == "todo"@ || w == "pending"@
}

/// Lower-cased words that mean "in progress".
pub open spec fn is_in_progress_word(w: Seq<char>) -> bool {
    w == "in_progress"@ || w == "in-progress"@ || w == "doing"@ || w == "active"@
}

/// Lower-cased words that mean "blocked".
pub open spec fn is_blocked_word(w: Seq<char>) -> bool {
    w == "blocked"@ || w == "waiting"@ || w == "deferred"@
}

/// Lower-cased words that mean "done".
pub open spec fn is_done_word(w: Seq<char>) -> bool {
    w == "done"@ || w == "closed"@ || w == "complete"@ || w == "completed"@ || w == "resolved"@
}

/// The status that a tracker's raw status text stands for: the text is
/// ASCII lower-cased and looked up among the known words; any other word is
/// kept, lower-cased, as an unknown status.
pub open spec fn status_from_raw(raw: Seq<char>) -> StatusView {
    let w = lower_seq(raw);
    if is_open_word(w) {
        StatusView::Open
    } else if is_in_progress_word(w) {
        StatusView::InProgress
    } else if is_blocked_word(w) {
        StatusView::Blocked
    } else if is_done_word(w) {
        StatusView::Done
    } else {
        StatusView::Unknown(w)
    }
}

/// The text shown for a status.
pub open spec fn status_label(s: StatusView) -> Seq<char> {
    match s {
        StatusView::Open => "open"@,
        StatusView::InProgress => "in progress"@,
        StatusView::Blocked => "blocked"@,
        StatusView::Done => "done"@,
        StatusView::Unknown(w) => w,
    }
}

/// Status parsing ignores ASCII case: a raw status text and its
/// lower-cased form stand for the same status.
pub proof fn lemma_status_ignores_ascii_case(raw: Seq<char>)
    ensures
        status_from_raw(lower_seq(raw)) == status_from_raw(raw),
{
    assert(lower_seq(lower_seq(raw)) =~= lower_seq(raw)) by {
        assert forall|i: int| 0 <= i < raw.len() implies #[trigger] lower_char(lower_char(raw[i]))
            == lower_char(raw[i]) by {
            let c = raw[i];
            if 'A' <= c && c <= 'Z' {
                assert(((c as u32) + 32) as char as u32 == (c as u32) + 32);
            }
        }
    }
}

impl TaskStatus {
    /// Normalizes a tracker's raw status text.
    pub fn from_raw(raw: &str) -> (r: TaskStatus)
        ensures
            r@ == status_from_raw(raw@),
    {
        let lowered = to_ascii_lowercase(raw);
        let w = lowered.as_str();
        if text_eq(w, "open") || text_eq(w, "todo") || text_eq(w, "pending") {
            TaskStatus::Open
        } else if text_eq(w, "in_progress") || text_eq(w, "in-progress") || text_eq(w, "doing")
            || text_eq(w, "active") {
            TaskStatus::InProgress
        } else if text_eq(w, "blocked") || text_eq(w, "waiting") || text_eq(w, "deferred") {
            TaskStatus::Blocked
        } else if text_eq(w, "done") || text_eq(w, "closed") || text_eq(w, "complete") || text_eq(
            w,
            "completed",
        ) || text_eq(w, "resolved") {
            TaskStatus::Done
        } else {
            TaskStatus::Unknown(lowered)
        }
    }

    /// The text shown for this status.
    pub fn label(&self) -> (r: &str)
        ensures
            r@ == status_label(self@),
    {
        match self {
            TaskStatus::Open => "open",
            TaskStatus::InProgress => "in progress",
            TaskStatus::Blocked => "blocked",
            TaskStatus::Done => "done",
            TaskStatus::Unknown(value) => value.as_str(),
        }
    }

    /// Whether this is the done status.
    pub fn is_done(&self) -> (r: bool)
        ensures
            r == (self@ is Done),
    {
        match self {
            TaskStatus::Done => true,
            _ => false,
        }
    }

    /// Whether this is the blocked status.
    pub fn is_blocked(&self) -> (r: bool)
        ensures
            r == (self@ is Blocked),
    {
        match self {
            TaskStatus::Blocked => true,
            _ => false,
        }
    }
}

/// One task from one source.
#[derive(Clone, Debug)]
pub struct Task {
    pub id: String,
    pub title: String,
    pub status: TaskStatus,
    pub source: String,
    pub source_path: Option<String>,
    pub assignee: Option<String>,
    /// When the task was claimed (taken into progress), where the source says.
    pub claimed_at: Option<String>,
    /// When the task was completed, where the source says.
    pub completed_at: Option<String>,
    pub updated_at: Option<String>,
    pub dependency_ids: Vec<String>,
    pub dependent_ids: Vec<String>,
    pub url: Option<String>,
}

/// The texts of a sequence of `String`s.
pub open spec fn texts(v: Seq<String>) -> Seq<Seq<char>> {
    v.map_values(|s: String| s@)
}

/// The ids of a sequence of tasks.
pub open spec fn task_ids(tasks: Seq<Task>) -> Seq<Seq<char>> {
    tasks.map_values(|t: Task| t.id@)
}

/// A task is blocked when its status says so or when it names any
/// (non-empty) dependency.
pub open spec fn task_blocked(t: Task) -> bool {
    (t.status@ is Blocked) || exists|i: int|
        0 <= i < t.dependency_ids@.len() && #[trigger] t.dependency_ids@[i]@.len() > 0
}

impl Task {
    /// Whether the task is done.
    pub fn is_done(&self) -> (r: bool)
        ensures
            r == (self.status@ is Done),
    {
        self.status.is_done()
    }

    /// Whether the task is blocked, by its status or by a dependency.
    pub fn is_blocked(&self) -> (r: bool)
        ensures
            r == task_blocked(*self),
    {
        if self.status.is_blocked() {
            return true;
        }
        let mut i: usize = 0;
        while i < self.dependency_ids.len()
            invariant
                i <= self.dependency_ids.len(),
                forall|j: int| 0 <= j < i ==> #[trigger] self.dependency_ids@[j]@.len() == 0,
            decreases self.dependency_ids.len() - i,
        {
            if !self.dependency_ids[i].as_str().is_empty() {
                return true;
            }
            i += 1;
        }
        false
    }
}

/// The kind of a trail event.
#[derive(Clone, Copy, Debug, PartialEq, Eq, Structural)]
pub enum TrailEventKind {
    Claimed,
    Completed,
}

/// A claim or a completion of a task by an actor, from a tracker's activity
/// feed.
#[derive(Clone, Debug)]
pub struct TrailEvent {
    pub task_id: String,
    pub actor: String,
    pub timestamp: String,
    pub kind: TrailEventKind,
}

/// What a `TrailEvent` denotes.
pub struct EventView {
    pub task_id: Seq<char>,
    pub actor: Seq<char>,
    pub timestamp: Seq<char>,
    pub kind: TrailEventKind,
}

impl View for TrailEvent {
    type V = EventView;

    open spec fn view(&self) -> EventView {
        EventView {
            task_id: self.task_id@,
            actor: self.actor@,
            timestamp: self.timestamp@,
            kind: self.kind,
        }
    }
}

/// Trail events are ordered by timestamp.
impl SortKey for TrailEvent {
    open spec fn sort_key(&self) -> Seq<Seq<char>> {
        seq![self.timestamp@]
    }

    open spec fn key_width() -> nat {
        1
    }

    proof fn lemma_key_width(&self) {
    }
}

impl KeyLess for TrailEvent {
    fn key_less(&self, other: &Self) -> (b: bool) {
        let r = text_less(self.timestamp.as_str(), other.timestamp.as_str());
        proof {
            lemma_text_lt_irreflexive(self.timestamp@);
            reveal_with_fuel(keys_lt, 2);
        }
        assert(seq![self.timestamp@].drop_first() =~= Seq::<Seq<char>>::empty());
        assert(seq![other.timestamp@].drop_first() =~= Seq::<Seq<char>>::empty());
        r
    }
}

impl SortKey for EventView {
    open spec fn sort_key(&self) -> Seq<Seq<char>> {
        seq![self.timestamp]
    }

    open spec fn key_width() -> nat {
        1
    }

    proof fn lemma_key_width(&self) {
    }
}

/// Tasks are ordered by source, then id, then title.
impl SortKey for Task {
    open spec fn sort_key(&self) -> Seq<Seq<char>> {
        seq![self.source@, self.id@, self.title@]
    }

    open spec fn key_width() -> nat {
        3
    }

    proof fn lemma_key_width(&self) {
    }
}

impl KeyLess for Task {
    fn key_less(&self, other: &Self) -> (b: bool) {
        let ghost a = self.sort_key();
        let ghost c = other.sort_key();
        assert(a.drop_first() =~= seq![self.id@, self.title@]);
        assert(c.drop_first() =~= seq![other.id@, other.title@]);
        assert(a.drop_first().drop_first() =~= seq![self.title@]);
        assert(c.drop_first().drop_first() =~= seq![other.title@]);
        assert(a.drop_first().drop_first().drop_first() =~= Seq::<Seq<char>>::empty());
        assert(c.drop_first().drop_first().drop_first() =~= Seq::<Seq<char>>::empty());
        proof {
            lemma_text_lt_irreflexive(self.title@);
            reveal_with_fuel(keys_lt, 4);
        }
        if self.source != other.source {
            text_less(self.source.as_str(), other.source.as_str())
        } else if self.id != other.id {
            text_less(self.id.as_str(), other.id.as_str())
        } else {
            text_less(self.title.as_str(), other.title.as_str())
        }
    }
}

/// A source that contributed tasks to a snapshot.
#[derive(Clone, Debug)]
pub struct LoadedSource {
    pub name: String,
    pub task_count: usize,
    pub detail: String,
}

impl Default for LoadedSource {
    fn default() -> (r: LoadedSource)
        ensures
            r.name@ == Seq::<char>::empty(),
            r.task_count == 0,
            r.detail@ == Seq::<char>::empty(),
    {
        LoadedSource { name: String::new(), task_count: 0, detail: String::new() }
    }
}

/// Everything loaded from one repository.
#[derive(Clone, Debug)]
pub struct TaskSnapshot {
    /// The repository path, as displayed.
    pub root: String,
    pub tasks: Vec<Task>,
    pub sources: Vec<LoadedSource>,
    pub warnings: Vec<String>,
    pub trail_events: Vec<TrailEvent>,
}

/// Aggregate counts of a snapshot's tasks.
#[derive(Clone, Copy, Debug)]
pub struct SnapshotStats {
    pub total: usize,
    pub done: usize,
    pub in_progress: usize,
    pub blocked: usize,
    pub open: usize,
}

impl Default for SnapshotStats {
    fn default() -> (r: SnapshotStats)
        ensures
            r.total == 0 && r.done == 0 && r.in_progress == 0 && r.blocked == 0 && r.open == 0,
    {
        SnapshotStats { total: 0, done: 0, in_progress: 0, blocked: 0, open: 0 }
    }
}

/// The statuses counted as open: open proper and every unknown status.
pub open spec fn counts_as_open(s: StatusView) -> bool {
    (s is Open) || (s is Unknown)
}

/// Number of tasks whose status is `Done`.
pub open spec fn count_done(tasks: Seq<Task>) -> nat
    decreases tasks.len(),
{
    if tasks.len() == 0 {
        0
    } else {
        count_done(tasks.drop_last()) + if tasks.last().status@ is Done {
            1nat
        } else {
            0nat
        }
    }
}

/// Number of tasks whose status is `InProgress`.
pub open spec fn count_in_progress(tasks: Seq<Task>) -> nat
    decreases tasks.len(),
{
    if tasks.len() == 0 {
        0
    } else {
        count_in_progress(tasks.drop_last()) + if tasks.last().status@ is InProgress {
            1nat
        } else {
            0nat
        }
    }
}

/// Number of tasks whose status is `Blocked`.
pub open spec fn count_blocked(tasks: Seq<Task>) -> nat
    decreases tasks.len(),
{
    if tasks.len() == 0 {
        0
    } else {
        count_blocked(tasks.drop_last()) + if tasks.last().status@ is Blocked {
            1nat
        } else {
            0nat
        }
    }
}

/// Number of tasks counted as open.
pub open spec fn count_open(tasks: Seq<Task>) -> nat
    decreases tasks.len(),
{
    if tasks.len() == 0 {
        0
    } else {
        count_open(tasks.drop_last()) + if counts_as_open(tasks.last().status@) {
            1nat
        } else {
            0nat
        }
    }
}

/// Every task falls in exactly one of the four counts.
pub proof fn lemma_counts_partition(tasks: Seq<Task>)
    ensures
        count_done(tasks) + count_in_progress(tasks) + count_blocked(tasks) + count_open(tasks)
            == tasks.len(),
    decreases tasks.len(),
{
    if tasks.len() > 0 {
        lemma_counts_partition(tasks.drop_last());
    }
}

/// The stats that a snapshot with `tasks` reports.
pub open spec fn stats_of(tasks: Seq<Task>) -> (nat, nat, nat, nat, nat) {
    (
        tasks.len(),
        count_done(tasks),
        count_in_progress(tasks),
        count_blocked(tasks),
        count_open(tasks),
    )
}

/// Index of the last element of `ids` equal to `id`, if any.
pub open spec fn last_index_of(ids: Seq<Seq<char>>, id: Seq<char>) -> Option<int>
    decreases ids.len(),
{
    if ids.len() == 0 {
        None
    } else if ids.last() == id {
        Some(ids.len() - 1)
    } else {
        last_index_of(ids.drop_last(), id)
    }
}

/// `last_index_of` finds exactly the last occurrence.
pub proof fn lemma_last_index_of(ids: Seq<Seq<char>>, id: Seq<char>)
    ensures
        match last_index_of(ids, id) {
            Some(i) => 0 <= i < ids.len() && ids[i] == id && forall|j: int|
                i < j < ids.len() ==> #[trigger] ids[j] != id,
            None => forall|j: int| 0 <= j < ids.len() ==> #[trigger] ids[j] != id,
        },
    decreases ids.len(),
{
    if ids.len() > 0 {
        lemma_last_index_of(ids.drop_last(), id);
        let p = ids.drop_last();
        assert forall|j: int| 0 <= j < p.len() implies p[j] == ids[j] by {}
    }
}

/// Task positions by id; where ids repeat, the last task with the id wins
/// (as when a map is filled in task order).
pub struct TaskIndex {
    ids: Vec<String>,
}

impl TaskIndex {
    /// The index of `tasks`.
    pub fn from_tasks(tasks: &Vec<Task>) -> (r: TaskIndex)
        ensures
            r.ids() == task_ids(tasks@),
    {
        let mut ids: Vec<String> = Vec::new();
        let mut i: usize = 0;
        while i < tasks.len()
            invariant
                i <= tasks.len(),
                ids@.len() == i,
                forall|k: int| 0 <= k < i ==> #[trigger] ids@[k]@ == tasks@[k].id@,
            decreases tasks.len() - i,
        {
            let id = tasks[i].id.clone();
            ids.push(id);
            i += 1;
        }
        assert(texts(ids@) =~= task_ids(tasks@));
        TaskIndex { ids }
    }

    /// The ids, in task order.
    pub closed spec fn ids(&self) -> Seq<Seq<char>> {
        texts(self.ids@)
    }

    /// The number of positions indexed.
    pub fn len(&self) -> (n: usize)
        ensures
            n == self.ids().len(),
    {
        self.ids.len()
    }

    /// The position of the last task whose id is `id`.
    pub fn get(&self, id: &String) -> (r: Option<usize>)
        ensures
            match r {
                Some(i) => last_index_of(self.ids(), id@) == Some(i as int),
                None => last_index_of(self.ids(), id@) is None,
            },
    {
        let mut i = self.ids.len();
        assert(self.ids().take(i as int) =~= self.ids());
        while i > 0
            invariant
                i <= self.ids.len(),
                last_index_of(self.ids(), id@) == last_index_of(self.ids().take(i as int), id@),
            decreases i,
        {
            let ghost t = self.ids().take(i as int);
            if self.ids[i - 1] == *id {
                return Some(i - 1);
            }
            assert(t.drop_last() =~= self.ids().take(i - 1));
            i -= 1;
        }
        None
    }
}

impl TaskSnapshot {
    /// A snapshot of `root` with nothing loaded.
    pub fn empty(root: String) -> (r: TaskSnapshot)
        ensures
            r.root == root,
            r.tasks@.len() == 0,
            r.sources@.len() == 0,
            r.warnings@.len() == 0,
            r.trail_events@.len() == 0,
    {
        TaskSnapshot {
            root,
            tasks: Vec::new(),
            sources: Vec::new(),
            warnings: Vec::new(),
            trail_events: Vec::new(),
        }
    }

    /// Counts of the tasks by status; unknown statuses count as open.
    pub fn stats(&self) -> (r: SnapshotStats)
        ensures
            (r.total as nat, r.done as nat, r.in_progress as nat, r.blocked as nat, r.open as nat)
                == stats_of(self.tasks@),
    {
        let mut stats = SnapshotStats::default();
        let mut i: usize = 0;
        while i < self.tasks.len()
            invariant
                i <= self.tasks.len(),
                (stats.total as nat, stats.done as nat, stats.in_progress as nat, stats.blocked as nat, stats.open as nat)
                    == stats_of(self.tasks@.take(i as int)),
            decreases self.tasks.len() - i,
        {
            proof {
                lemma_counts_partition(self.tasks@.take(i as int));
                assert(self.tasks@.take(i + 1).drop_last() =~= self.tasks@.take(i as int));
            }
            stats.total += 1;
            match self.tasks[i].status {
                TaskStatus::Done => stats.done += 1,
                TaskStatus::InProgress => stats.in_progress += 1,
                TaskStatus::Blocked => stats.blocked += 1,
                TaskStatus::Open | TaskStatus::Unknown(_) => stats.open += 1,
            }
            i += 1;
        }
        assert(self.tasks@.take(i as int) =~= self.tasks@);
        stats
    }

    /// Task positions by id.
    pub fn task_index(&self) -> (r: TaskIndex)
        ensures
            r.ids() == task_ids(self.tasks@),
    {
        TaskIndex::from_tasks(&self.tasks)
    }
}

} // verus!

//! The task sources of a repository and how their results are merged into
//! one snapshot.
pub mod beads;
pub mod markdown;

use vstd::prelude::*;
use crate::model::{
    Task, TrailEvent, TaskSnapshot, LoadedSource, TaskIndex, texts, task_ids, last_index_of,
    lemma_last_index_of,
};
use crate::sorting::{sort_by_key, sort_by_key_vec, is_sorted_by_key, SortKey, lemma_sort_by_key_sorted, lemma_sort_by_key_permutes};
use crate::text::{concat, text_lt};

verus! {

/// What one source gave: its tasks, warnings and trail events.
#[derive(Debug)]
pub struct SourceLoadResult {
    pub tasks: Vec<Task>,
    pub warnings: Vec<String>,
    pub trail_events: Vec<TrailEvent>,
}

impl Default for SourceLoadResult {
    fn default() -> (r: SourceLoadResult)
        ensures
            r.tasks@.len() == 0,
            r.warnings@.len() == 0,
            r.trail_events@.len() == 0,
    {
        SourceLoadResult { tasks: Vec::new(), warnings: Vec::new(), trail_events: Vec::new() }
    }
}

/// The ids of the tasks that name `id_of_p`'s position `p` among their
/// dependencies: for each task in order, its id once per dependency that the
/// index by id resolves to `p` (the last task with that id).
pub open spec fn dependency_hits(ids: Seq<Seq<char>>, deps: Seq<Seq<char>>, id: Seq<char>, p: int) -> Seq<
    Seq<char>,
>
    decreases deps.len(),
{
    if deps.len() == 0 {
        seq![]
    } else {
        let rest = dependency_hits(ids, deps.drop_last(), id, p);
        if last_index_of(ids, deps.last()) == Some(p) {
            rest.push(id)
        } else {
            rest
        }
    }
}

/// The dependents of position `p` among the first `n` tasks.
pub open spec fn dependents_upto(tasks: Seq<Task>, n: int, p: int) -> Seq<Seq<char>>
    decreases n,
{
    if n <= 0 {
        seq![]
    } else {
        dependents_upto(tasks, n - 1, p) + dependency_hits(
            task_ids(tasks),
            texts(tasks[n - 1].dependency_ids@),
            tasks[n - 1].id@,
            p,
        )
    }
}

/// The ids of the tasks that depend on the task at position `p`, in task order.
pub open spec fn dependents_of(tasks: Seq<Task>, p: int) -> Seq<Seq<char>> {
    dependents_upto(tasks, tasks.len() as int, p)
}

/// `a` and `b` agree on everything but their dependents.
pub open spec fn same_but_dependents(a: Task, b: Task) -> bool {
    &&& a.id == b.id
    &&& a.title == b.title
    &&& a.status == b.status
    &&& a.source == b.source
    &&& a.source_path == b.source_path
    &&& a.assignee == b.assignee
    &&& a.claimed_at == b.claimed_at
    &&& a.completed_at == b.completed_at
    &&& a.updated_at == b.updated_at
    &&& a.dependency_ids == b.dependency_ids
    &&& a.url == b.url
}

/// `after` is `before` with each task's dependents filled in.
pub open spec fn with_dependents(after: Seq<Task>, before: Seq<Task>) -> bool {
    &&& after.len() == before.len()
    &&& forall|p: int|
        0 <= p < before.len() ==> {
            &&& same_but_dependents(#[trigger] after[p], before[p])
            &&& texts(after[p].dependent_ids@) == dependents_of(before, p)
        }
}

/// Task positions by id, for a list of tasks.
pub fn index_tasks(tasks: &Vec<Task>) -> (r: TaskIndex)
    ensures
        r.ids() == task_ids(tasks@),
{
    TaskIndex::from_tasks(tasks)
}

/// Fills in each task's dependents: the ids of the tasks that name it among
/// their dependencies, in task order.
pub fn populate_dependents(tasks: &mut Vec<Task>)
    ensures
        with_dependents(final(tasks)@, old(tasks)@),
{
    let ghost orig = tasks@;
    let index = index_tasks(tasks);
    let n = tasks.len();
    let mut dependents: Vec<Vec<String>> = Vec::new();
    while dependents.len() < n
        invariant
            dependents.len() <= n,
            forall|p: int| 0 <= p < dependents.len() ==> (#[trigger] dependents@[p])@.len() == 0,
        decreases n - dependents.len(),
    {
        dependents.push(Vec::new());
    }
    let mut a: usize = 0;
    while a < n
        invariant
            a <= n,
            n == orig.len(),
            tasks@ == orig,
            index.ids() == task_ids(orig),
            dependents.len() == n,
            forall|p: int|
                0 <= p < n ==> texts((#[trigger] dependents@[p])@) == dependents_upto(orig, a as int, p),
        decreases n - a,
    {
        let task = &tasks[a];
        let ghost deps = texts(task.dependency_ids@);
        let mut k: usize = 0;
        while k < task.dependency_ids.len()
            invariant
                a < n,
                n == orig.len(),
                tasks@ == orig,
                *task == orig[a as int],
                deps == texts(task.dependency_ids@),
                index.ids() == task_ids(orig),
                k <= deps.len(),
                dependents.len() == n,
                forall|p: int|
                    0 <= p < n ==> texts((#[trigger] dependents@[p])@) == dependents_upto(orig, a as int, p)
                        + dependency_hits(task_ids(orig), deps.take(k as int), task.id@, p),
            decreases deps.len() - k,
        {
            let ghost prev = dependents@;
            assert(deps.take(k + 1).drop_last() =~= deps.take(k as int));
            assert(deps.take(k + 1).last() == task.dependency_ids@[k as int]@);
            match index.get(&task.dependency_ids[k]) {
                Some(q) => {
                    proof {
                        lemma_last_index_of(task_ids(orig), task.dependency_ids@[k as int]@);
                    }
                    let id = task.id.clone();
                    dependents[q].push(id);
                    assert forall|p: int| 0 <= p < n implies texts((#[trigger] dependents@[p])@)
                        == dependents_upto(orig, a as int, p) + dependency_hits(
                        task_ids(orig),
                        deps.take(k + 1),
                        task.id@,
                        p,
                    ) by {
                        if p == q {
                            assert(texts(dependents@[p]@) =~= texts(prev[p]@).push(task.id@));
                        } else {
                            assert(dependents@[p] == prev[p]);
                        }
                    }
                },
                None => {},
            }
            k += 1;
        }
        assert(deps.take(k as int) =~= deps);
        a += 1;
    }
    let mut p = n;
    while p > 0
        invariant
            p <= n,
            n == orig.len(),
            tasks@.len() == n,
            dependents.len() == p,
            forall|j: int| 0 <= j < p ==> texts((#[trigger] dependents@[j])@) == dependents_of(orig, j),
            forall|j: int| 0 <= j < p ==> #[trigger] tasks@[j] == orig[j],
            forall|j: int|
                p <= j < n ==> {
                    &&& same_but_dependents(#[trigger] tasks@[j], orig[j])
                    &&& texts(tasks@[j].dependent_ids@) == dependents_of(orig, j)
                },
        decreases p,
    {
        p -= 1;
        let list = dependents.pop().unwrap();
        let mut task = tasks.remove(p);
        task.dependent_ids = list;
        tasks.insert(p, task);
    }
}

/// Drops every warning that already occurred earlier, keeping the first
/// occurrence of each, in order.
pub fn deduplicate_warnings(warnings: &mut Vec<String>)
    ensures
        texts(final(warnings)@) == texts(old(warnings)@).remove_duplicates(seq![]),
{
    let ghost all = texts(warnings@);
    let mut kept: Vec<String> = Vec::new();
    let mut i: usize = 0;
    assert(all.take(0).remove_duplicates(seq![]) =~= Seq::<Seq<char>>::empty());
    while i < warnings.len()
        invariant
            i <= warnings.len(),
            all == texts(warnings@),
            texts(kept@) == all.take(i as int).remove_duplicates(seq![]),
        decreases warnings.len() - i,
    {
        let ghost prefix = all.take(i as int);
        proof {
            prefix.lemma_remove_duplicates_properties(seq![]);
            prefix.lemma_remove_duplicates_append(all[i as int], seq![]);
            assert(prefix + seq![] =~= prefix);
            assert(prefix + seq![all[i as int]] =~= all.take(i + 1));
        }
        let mut seen = false;
        let mut j: usize = 0;
        while j < kept.len()
            invariant
                j <= kept.len(),
                i < warnings.len(),
                seen == exists|m: int| 0 <= m < j && kept@[m]@ == warnings@[i as int]@,
            decreases kept.len() - j,
        {
            if kept[j] == warnings[i] {
                seen = true;
            }
            j += 1;
        }
        proof {
            assert(seen == texts(kept@).contains(all[i as int])) by {
                if seen {
                    let m = choose|m: int| 0 <= m < j && kept@[m]@ == warnings@[i as int]@;
                    assert(texts(kept@)[m] == all[i as int]);
                }
                if texts(kept@).contains(all[i as int]) {
                    let m = choose|m: int| 0 <= m < texts(kept@).len() && texts(kept@)[m] == all[i as int];
                    assert(kept@[m]@ == warnings@[i as int]@);
                }
            }
        }
        if !seen {
            let w = warnings[i].clone();
            let ghost before = kept@;
            kept.push(w);
            assert(texts(kept@) =~= texts(before) + seq![all[i as int]]);
        }
        i += 1;
    }
    assert(all.take(i as int) =~= all);
    *warnings = kept;
}

/// The tasks of a source's result, or none when it failed.
pub open spec fn result_tasks(r: Result<SourceLoadResult, String>) -> Seq<Task> {
    match r {
        Ok(res) => res.tasks@,
        Err(_) => seq![],
    }
}

/// The trail events of a source's result, or none when it failed.
pub open spec fn result_events(r: Result<SourceLoadResult, String>) -> Seq<TrailEvent> {
    match r {
        Ok(res) => res.trail_events@,
        Err(_) => seq![],
    }
}

/// The warnings that a source contributes: its own, or, when it failed, its
/// error prefixed with the source's name.
pub open spec fn result_warnings(name: Seq<char>, r: Result<SourceLoadResult, String>) -> Seq<
    Seq<char>,
> {
    match r {
        Ok(res) => texts(res.warnings@),
        Err(e) => seq![name + ": "@ + e@],
    }
}

/// `s` summarizes a source named `name` that gave `count` tasks.
pub open spec fn is_summary(s: LoadedSource, name: Seq<char>, count: nat, detail: Seq<char>) -> bool {
    s.name@ == name && s.task_count == count && s.detail@ == detail
}

/// How the beads source is described.
pub open spec fn beads_detail() -> Seq<char> {
    "Loaded through `bd list --json`"@
}

/// How the markdown source is described.
pub open spec fn markdown_detail() -> Seq<char> {
    "Checklist items from repo markdown"@
}

/// The tasks of the beads outcome (none when the repository is not a beads
/// repository).
pub open spec fn beads_tasks(beads: Option<Result<SourceLoadResult, String>>) -> Seq<Task> {
    match beads {
        Some(r) => result_tasks(r),
        None => seq![],
    }
}

/// The trail events of the beads outcome.
pub open spec fn beads_events(beads: Option<Result<SourceLoadResult, String>>) -> Seq<TrailEvent> {
    match beads {
        Some(r) => result_events(r),
        None => seq![],
    }
}

/// The warnings of the beads outcome.
pub open spec fn beads_warnings(beads: Option<Result<SourceLoadResult, String>>) -> Seq<Seq<char>> {
    match beads {
        Some(r) => result_warnings("beads"@, r),
        None => seq![],
    }
}

/// Whether the beads source is listed.
pub open spec fn beads_listed(beads: Option<Result<SourceLoadResult, String>>) -> bool {
    beads matches Some(r) && listed(r)
}

/// A source is listed when it loaded and gave at least one task.
pub open spec fn listed(r: Result<SourceLoadResult, String>) -> bool {
    r matches Ok(res) && res.tasks@.len() > 0
}

/// The snapshot that `load_repository` makes of the source outcomes:
/// sources that gave tasks are listed (beads first, then markdown), their
/// tasks are merged, sorted by source, id and title, and given their
/// dependents, their warnings are merged without repeats, and their trail
/// events are kept in order.
pub open spec fn is_merged_snapshot(
    snap: TaskSnapshot,
    root: Seq<char>,
    beads: Option<Result<SourceLoadResult, String>>,
    markdown: Result<SourceLoadResult, String>,
) -> bool {
    let merged = beads_tasks(beads) + result_tasks(markdown);
    &&& snap.root@ == root
    &&& with_dependents(snap.tasks@, sort_by_key(merged))
    &&& texts(snap.warnings@) == (beads_warnings(beads) + result_warnings("markdown"@, markdown)).remove_duplicates(seq![])
    &&& snap.trail_events@ == beads_events(beads) + result_events(markdown)
    &&& snap.sources@.len() == (if beads_listed(beads) { 1nat } else { 0nat }) + (if listed(markdown) { 1nat } else { 0nat })
    &&& beads_listed(beads) ==> is_summary(snap.sources@[0], "beads"@, beads_tasks(beads).len(), beads_detail())
    &&& listed(markdown) ==> is_summary(
        snap.sources@[snap.sources@.len() - 1],
        "markdown"@,
        result_tasks(markdown).len(),
        markdown_detail(),
    )
}

/// Adds what one source gave to the running merge.
fn absorb(
    name: &str,
    detail: &str,
    outcome: Result<SourceLoadResult, String>,
    tasks: &mut Vec<Task>,
    warnings: &mut Vec<String>,
    events: &mut Vec<TrailEvent>,
    sources: &mut Vec<LoadedSource>,
)
    ensures
        final(tasks)@ == old(tasks)@ + result_tasks(outcome),
        texts(final(warnings)@) == texts(old(warnings)@) + result_warnings(name@, outcome),
        final(events)@ == old(events)@ + result_events(outcome),
        final(sources)@.len() == old(sources)@.len() + if listed(outcome) { 1nat } else { 0nat },
        forall|k: int| 0 <= k < old(sources)@.len() ==> #[trigger] final(sources)@[k] == old(sources)@[k],
        listed(outcome) ==> is_summary(
            final(sources)@[old(sources)@.len() as int],
            name@,
            result_tasks(outcome).len(),
            detail@,
        ),
{
    match outcome {
        Ok(result) => {
            let mut result = result;
            if result.tasks.len() > 0 {
                sources.push(LoadedSource {
                    name: String::from_str(name),
                    task_count: result.tasks.len(),
                    detail: String::from_str(detail),
                });
            }
            let ghost w0 = warnings@;
            let ghost rw = result.warnings@;
            warnings.append(&mut result.warnings);
            assert(texts(warnings@) =~= texts(w0) + texts(rw));
            tasks.append(&mut result.tasks);
            events.append(&mut result.trail_events);
        },
        Err(error) => {
            let mut message = String::from_str(name);
            message.append(": ");
            message.append(error.as_str());
            let ghost w0 = warnings@;
            warnings.push(message);
            assert(texts(warnings@) =~= texts(w0) + seq![message@]);
        },
    }
}

/// Merges what the sources of a repository gave into one snapshot, once
/// the sources have been read. `root` is the
/// repository path as displayed and `root_exists` whether it exists; `beads`
/// is none when the repository is not a beads repository.
pub fn load_repository(
    root: String,
    root_exists: bool,
    beads: Option<Result<SourceLoadResult, String>>,
    markdown: Result<SourceLoadResult, String>,
) -> (r: Result<TaskSnapshot, String>)
    ensures
        !root_exists ==> (r matches Err(m) && m@ == root@ + " does not exist"@),
        root_exists ==> (r matches Ok(snap) && is_merged_snapshot(snap, root@, beads, markdown)),
{
    if !root_exists {
        return Err(concat(root.as_str(), " does not exist"));
    }
    let ghost b = beads;
    let ghost m = markdown;
    let mut tasks: Vec<Task> = Vec::new();
    let mut warnings: Vec<String> = Vec::new();
    let mut events: Vec<TrailEvent> = Vec::new();
    let mut sources: Vec<LoadedSource> = Vec::new();
    match beads {
        Some(outcome) => {
            absorb("beads", "Loaded through `bd list --json`", outcome, &mut tasks, &mut warnings, &mut events, &mut sources);
        },
        None => {},
    }
    assert(tasks@ =~= beads_tasks(b));
    assert(events@ =~= beads_events(b));
    assert(texts(warnings@) =~= beads_warnings(b));
    let ghost s1 = sources@;
    absorb("markdown", "Checklist items from repo markdown", markdown, &mut tasks, &mut warnings, &mut events, &mut sources);
    let ghost merged = tasks@;
    let mut sorted = sort_by_key_vec(tasks);
    populate_dependents(&mut sorted);
    let ghost raw_warnings = texts(warnings@);
    deduplicate_warnings(&mut warnings);
    let snapshot = TaskSnapshot {
        root,
        tasks: sorted,
        sources,
        warnings,
        trail_events: events,
    };
    proof {
        match b {
            Some(_) => {},
            None => {
                assert(texts(Seq::<String>::empty()) =~= Seq::<Seq<char>>::empty());
                assert(raw_warnings =~= Seq::<Seq<char>>::empty() + result_warnings("markdown"@, m));
            },
        }
    }
    Ok(snapshot)
}

// ---------------------------------------------------------------------------
// Laws
// ---------------------------------------------------------------------------

proof fn lemma_hits_contains(ids: Seq<Seq<char>>, deps: Seq<Seq<char>>, id: Seq<char>, p: int, x: Seq<char>)
    ensures
        dependency_hits(ids, deps, id, p).contains(x) <==> (x == id && exists|k: int|
            0 <= k < deps.len() && last_index_of(ids, #[trigger] deps[k]) == Some(p)),
    decreases deps.len(),
{
    if deps.len() > 0 {
        let d = deps.drop_last();
        lemma_hits_contains(ids, d, id, p, x);
        let h = dependency_hits(ids, d, id, p);
        if last_index_of(ids, deps.last()) == Some(p) {
            assert(h.push(id)[h.len() as int] == id);
            if h.push(id).contains(x) && x != id {
                let m = choose|m: int| 0 <= m < h.push(id).len() && h.push(id)[m] == x;
                assert(h[m] == x);
            }
            if h.contains(x) {
                let m = choose|m: int| 0 <= m < h.len() && h[m] == x;
                assert(h.push(id)[m] == x);
            }
        }
        if exists|k: int| 0 <= k < d.len() && last_index_of(ids, #[trigger] d[k]) == Some(p) {
            let k = choose|k: int| 0 <= k < d.len() && last_index_of(ids, #[trigger] d[k]) == Some(p);
            assert(deps[k] == d[k]);
        }
        if exists|k: int| 0 <= k < deps.len() && last_index_of(ids, #[trigger] deps[k]) == Some(p) {
            let k = choose|k: int| 0 <= k < deps.len() && last_index_of(ids, #[trigger] deps[k]) == Some(p);
            if k < d.len() {
                assert(d[k] == deps[k]);
            }
        }
    }
}

/// A link from task `a`'s `k`-th dependency to the task at position `p`.
pub open spec fn links_to(tasks: Seq<Task>, a: int, k: int, p: int) -> bool {
    &&& 0 <= a < tasks.len()
    &&& 0 <= k < tasks[a].dependency_ids@.len()
    &&& last_index_of(task_ids(tasks), tasks[a].dependency_ids@[k]@) == Some(p)
}

proof fn lemma_upto_contains(tasks: Seq<Task>, n: int, p: int, x: Seq<char>)
    requires
        0 <= n <= tasks.len(),
    ensures
        dependents_upto(tasks, n, p).contains(x) <==> exists|a: int, k: int|
            0 <= a < n && #[trigger] links_to(tasks, a, k, p) && tasks[a].id@ == x,
    decreases n,
{
    if n > 0 {
        lemma_upto_contains(tasks, n - 1, p, x);
        let t = tasks[n - 1];
        let deps = texts(t.dependency_ids@);
        lemma_hits_contains(task_ids(tasks), deps, t.id@, p, x);
        let u = dependents_upto(tasks, n - 1, p);
        let h = dependency_hits(task_ids(tasks), deps, t.id@, p);
        if (u + h).contains(x) {
            let m = choose|m: int| 0 <= m < (u + h).len() && (u + h)[m] == x;
            if m < u.len() {
                assert(u[m] == x);
            } else {
                assert(h[m - u.len()] == x);
                let k = choose|k: int| 0 <= k < deps.len() && last_index_of(task_ids(tasks), #[trigger] deps[k]) == Some(p);
                assert(links_to(tasks, n - 1, k, p));
            }
        }
        if exists|a: int, k: int| 0 <= a < n && #[trigger] links_to(tasks, a, k, p) && tasks[a].id@ == x {
            let (a, k) = choose|a: int, k: int| 0 <= a < n && #[trigger] links_to(tasks, a, k, p) && tasks[a].id@ == x;
            if a < n - 1 {
                let m = choose|m: int| 0 <= m < u.len() && u[m] == x;
                assert((u + h)[m] == x);
            } else {
                assert(deps[k] == tasks[a].dependency_ids@[k]@);
                let m = choose|m: int| 0 <= m < h.len() && h[m] == x;
                assert((u + h)[u.len() + m] == x);
            }
        }
    }
}

/// Dependents are the reverse of dependency links: a task's id is among the
/// dependents of the task at position `p` exactly when one of its
/// dependencies names that task (the last task with that id).
pub proof fn lemma_dependents_reverse_links(tasks: Seq<Task>, p: int, x: Seq<char>)
    ensures
        dependents_of(tasks, p).contains(x) <==> exists|a: int, k: int|
            #[trigger] links_to(tasks, a, k, p) && tasks[a].id@ == x,
{
    lemma_upto_contains(tasks, tasks.len() as int, p, x);
}

proof fn lemma_remove_duplicates_unique(s: Seq<Seq<char>>, seen: Seq<Seq<char>>)
    requires
        seen.no_duplicates(),
    ensures
        s.remove_duplicates(seen).no_duplicates(),
    decreases s.len(),
{
    if s.len() > 0 {
        if seen.contains(s[0]) {
            lemma_remove_duplicates_unique(s.skip(1), seen);
        } else {
            let seen2 = seen + seq![s[0]];
            assert(seen2.no_duplicates()) by {
                assert forall|i: int, j: int| 0 <= i < seen2.len() && 0 <= j < seen2.len() && i != j implies seen2[i] != seen2[j] by {
                    if i < seen.len() && j < seen.len() {
                    } else if i < seen.len() {
                        assert(seen.contains(seen2[i]));
                    } else if j < seen.len() {
                        assert(seen.contains(seen2[j]));
                    }
                }
            }
            lemma_remove_duplicates_unique(s.skip(1), seen2);
        }
    }
}

/// The merged warnings hold each warning once, and hold every warning that
/// some source gave.
pub proof fn lemma_snapshot_warnings_unique(
    snap: TaskSnapshot,
    root: Seq<char>,
    beads: Option<Result<SourceLoadResult, String>>,
    markdown: Result<SourceLoadResult, String>,
)
    requires
        is_merged_snapshot(snap, root, beads, markdown),
    ensures
        texts(snap.warnings@).no_duplicates(),
        forall|w: Seq<char>| texts(snap.warnings@).contains(w) <==> (beads_warnings(beads)
            + result_warnings("markdown"@, markdown)).contains(w),
{
    let all = beads_warnings(beads) + result_warnings("markdown"@, markdown);
    let empty = Seq::<Seq<char>>::empty();
    assert(empty.no_duplicates());
    lemma_remove_duplicates_unique(all, empty);
    all.lemma_remove_duplicates_properties(empty);
    assert(all + empty =~= all);
}

/// The snapshot's tasks are all the sources' tasks, each once, in order of
/// source, id and title.
pub proof fn lemma_snapshot_tasks_sorted(
    snap: TaskSnapshot,
    root: Seq<char>,
    beads: Option<Result<SourceLoadResult, String>>,
    markdown: Result<SourceLoadResult, String>,
)
    requires
        is_merged_snapshot(snap, root, beads, markdown),
    ensures
        is_sorted_by_key(snap.tasks@),
        snap.tasks@.len() == beads_tasks(beads).len() + result_tasks(markdown).len(),
        snap.tasks@.map_values(|t: Task| t.sort_key()).to_multiset()
            == (beads_tasks(beads) + result_tasks(markdown)).map_values(|t: Task| t.sort_key()).to_multiset(),
{
    let merged = beads_tasks(beads) + result_tasks(markdown);
    let sorted = sort_by_key(merged);
    lemma_sort_by_key_sorted(merged);
    lemma_sort_by_key_permutes(merged);
    let out = snap.tasks@;
    assert forall|i: int, j: int| 0 <= i < j < out.len() implies !crate::sorting::keys_lt(
        #[trigger] out[j].sort_key(),
        #[trigger] out[i].sort_key(),
    ) by {
        assert(same_but_dependents(out[i], sorted[i]));
        assert(same_but_dependents(out[j], sorted[j]));
        assert(out[i].sort_key() == sorted[i].sort_key());
        assert(out[j].sort_key() == sorted[j].sort_key());
    }
    let f = |t: Task| t.sort_key();
    assert(out.map_values(f) =~= sorted.map_values(f)) by {
        assert forall|i: int| 0 <= i < out.len() implies out.map_values(f)[i] == sorted.map_values(f)[i] by {
            assert(same_but_dependents(out[i], sorted[i]));
        }
    }
    lemma_map_multiset(sorted, merged, f);
}

/// The snapshot's tasks are ordered by source, then by id, then by title,
/// each in text order: a later task never has a smaller source; among tasks
/// of one source a later one never has a smaller id; and the title only
/// orders tasks whose source and id are both equal.
pub proof fn lemma_snapshot_task_order(
    snap: TaskSnapshot,
    root: Seq<char>,
    beads: Option<Result<SourceLoadResult, String>>,
    markdown: Result<SourceLoadResult, String>,
)
    requires
        is_merged_snapshot(snap, root, beads, markdown),
    ensures
        forall|i: int, j: int|
            0 <= i < j < snap.tasks@.len() ==> {
                let a = #[trigger] snap.tasks@[i];
                let b = #[trigger] snap.tasks@[j];
                &&& !text_lt(b.source@, a.source@)
                &&& a.source@ == b.source@ ==> !text_lt(b.id@, a.id@)
                &&& a.source@ == b.source@ && a.id@ == b.id@ ==> !text_lt(b.title@, a.title@)
            },
{
    lemma_snapshot_tasks_sorted(snap, root, beads, markdown);
    assert forall|i: int, j: int| 0 <= i < j < snap.tasks@.len() implies {
        let a = #[trigger] snap.tasks@[i];
        let b = #[trigger] snap.tasks@[j];
        &&& !text_lt(b.source@, a.source@)
        &&& a.source@ == b.source@ ==> !text_lt(b.id@, a.id@)
        &&& a.source@ == b.source@ && a.id@ == b.id@ ==> !text_lt(b.title@, a.title@)
    } by {
        let a = snap.tasks@[i];
        let b = snap.tasks@[j];
        assert(!crate::sorting::keys_lt(b.sort_key(), a.sort_key()));
        let ka = a.sort_key();
        let kb = b.sort_key();
        assert(ka.drop_first() =~= seq![a.id@, a.title@]);
        assert(kb.drop_first() =~= seq![b.id@, b.title@]);
        assert(ka.drop_first().drop_first() =~= seq![a.title@]);
        assert(kb.drop_first().drop_first() =~= seq![b.title@]);
        reveal_with_fuel(crate::sorting::keys_lt, 4);
        crate::text::lemma_text_lt_irreflexive(a.source@);
        crate::text::lemma_text_lt_irreflexive(a.id@);
        crate::text::lemma_text_lt_irreflexive(a.title@);
        if a.source@ == b.source@ {
            assert(crate::sorting::keys_lt(kb, ka) == crate::sorting::keys_lt(kb.drop_first(), ka.drop_first()));
            if a.id@ == b.id@ {
                assert(crate::sorting::keys_lt(kb.drop_first(), ka.drop_first())
                    == crate::sorting::keys_lt(kb.drop_first().drop_first(), ka.drop_first().drop_first()));
            }
        }
    }
}

proof fn lemma_map_multiset<A, B>(s: Seq<A>, t: Seq<A>, f: spec_fn(A) -> B)
    requires
        s.to_multiset() == t.to_multiset(),
    ensures
        s.map_values(f).to_multiset() == t.map_values(f).to_multiset(),
    decreases s.len(),
{
    broadcast use vstd::seq_lib::group_to_multiset_ensures;

    if s.len() == 0 {
        assert(s.to_multiset().len() == 0);
        assert(t.to_multiset().len() == t.len());
        assert(t.len() == 0);
        assert(s.map_values(f) =~= t.map_values(f));
    } else {
        let x = s.last();
        assert(s.to_multiset().count(x) > 0) by {
            assert(s.contains(x));
        }
        assert(t.contains(x));
        let i = choose|i: int| 0 <= i < t.len() && t[i] == x;
        let t2 = t.remove(i);
        assert(t2.to_multiset() =~= t.to_multiset().remove(x));
        assert(s =~= s.drop_last().push(x));
        assert(s.drop_last().to_multiset() =~= s.to_multiset().remove(x));
        lemma_map_multiset(s.drop_last(), t2, f);
        assert(s.map_values(f) =~= s.drop_last().map_values(f).push(f(x)));
        assert(t.map_values(f).remove(i) =~= t2.map_values(f));
        assert(t.map_values(f)[i] == f(x));
        assert(t.map_values(f).remove(i).to_multiset() =~= t.map_values(f).to_multiset().remove(f(x)));
        assert(t.map_values(f).to_multiset().count(f(x)) > 0) by {
            assert(t.map_values(f).contains(f(x)));
        }
        assert(t.map_values(f).to_multiset() =~= t.map_values(f).to_multiset().remove(f(x)).insert(f(x)));
    }
}

} // verus!

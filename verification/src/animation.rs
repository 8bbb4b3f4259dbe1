//! Bookkeeping of the completion animations: which tasks were done at the
//! last refresh, and when each running animation started.
use vstd::prelude::*;
use crate::model::{Task, task_ids};

verus! {

/// The map that `entries` stands for: each key with the value of its entry
/// (later entries win).
pub open spec fn entries_map<T>(entries: Seq<(String, T)>) -> Map<Seq<char>, T>
    decreases entries.len(),
{
    if entries.len() == 0 {
        Map::empty()
    } else {
        entries_map(entries.drop_last()).insert(entries.last().0@, entries.last().1)
    }
}

/// No key occurs twice among `entries`.
pub open spec fn keys_unique<T>(entries: Seq<(String, T)>) -> bool {
    forall|i: int, j: int|
        0 <= i < j < entries.len() ==> (#[trigger] entries[i]).0@ != (#[trigger] entries[j]).0@
}

proof fn lemma_entries_map<T>(entries: Seq<(String, T)>)
    requires
        keys_unique(entries),
    ensures
        forall|k: Seq<char>|
            #[trigger] entries_map(entries).contains_key(k) <==> exists|i: int|
                0 <= i < entries.len() && entries[i].0@ == k,
        forall|i: int|
            0 <= i < entries.len() ==> #[trigger] entries_map(entries)[entries[i].0@] == entries[i].1,
        entries_map(entries).dom().finite(),
    decreases entries.len(),
{
    if entries.len() > 0 {
        let p = entries.drop_last();
        assert(keys_unique(p)) by {
            assert forall|i: int, j: int| 0 <= i < j < p.len() implies (#[trigger] p[i]).0@ != (
            #[trigger] p[j]).0@ by {
                assert(p[i] == entries[i] && p[j] == entries[j]);
            }
        }
        lemma_entries_map(p);
        let m = entries_map(entries);
        assert forall|k: Seq<char>| #[trigger] m.contains_key(k) <==> exists|i: int|
            0 <= i < entries.len() && entries[i].0@ == k by {
            if m.contains_key(k) && k != entries.last().0@ {
                let i = choose|i: int| 0 <= i < p.len() && p[i].0@ == k;
                assert(entries[i] == p[i]);
            }
            if exists|i: int| 0 <= i < entries.len() && entries[i].0@ == k {
                let i = choose|i: int| 0 <= i < entries.len() && entries[i].0@ == k;
                if i < p.len() {
                    assert(p[i] == entries[i]);
                }
            }
        }
        assert forall|i: int| 0 <= i < entries.len() implies #[trigger] m[entries[i].0@]
            == entries[i].1 by {
            if i < p.len() {
                assert(p[i] == entries[i]);
                assert(entries[i].0@ != entries[entries.len() - 1].0@);
            }
        }
    }
}

/// When each running completion animation started, by task id.
pub struct CompletionTimers<T: Copy> {
    entries: Vec<(String, T)>,
}

impl<T: Copy> CompletionTimers<T> {
    /// Each task id has at most one start time.
    #[verifier::type_invariant]
    spec fn well_formed(self) -> bool {
        keys_unique(self.entries@)
    }

    /// The start times, by task id.
    pub closed spec fn view(&self) -> Map<Seq<char>, T> {
        entries_map(self.entries@)
    }

    /// No animation is running.
    pub fn new() -> (r: Self)
        ensures
            r.view() == Map::<Seq<char>, T>::empty(),
    {
        CompletionTimers { entries: Vec::new() }
    }

    fn position(&self, id: &String) -> (r: Option<usize>)
        ensures
            match r {
                Some(i) => i < self.entries@.len() && self.entries@[i as int].0@ == id@,
                None => forall|i: int|
                    0 <= i < self.entries@.len() ==> #[trigger] self.entries@[i].0@ != id@,
            },
    {
        let mut i: usize = 0;
        while i < self.entries.len()
            invariant
                i <= self.entries.len(),
                forall|j: int| 0 <= j < i ==> #[trigger] self.entries@[j].0@ != id@,
            decreases self.entries.len() - i,
        {
            if self.entries[i].0 == *id {
                return Some(i);
            }
            i += 1;
        }
        None
    }

    /// When the animation of task `id` started, if one is running.
    pub fn get(&self, id: &String) -> (r: Option<T>)
        ensures
            r == (if self.view().contains_key(id@) {
                Some(self.view()[id@])
            } else {
                None
            }),
    {
        proof {
            use_type_invariant(self);
            lemma_entries_map(self.entries@);
        }
        match self.position(id) {
            Some(i) => Some(self.entries[i].1),
            None => None,
        }
    }

    /// Stops the animation of task `id`, if one is running.
    pub fn remove(&mut self, id: &String)
        ensures
            final(self).view() == old(self).view().remove(id@),
    {
        proof {
            use_type_invariant(&*self);
            lemma_entries_map(self.entries@);
        }
        let ghost old_entries = self.entries@;
        match self.position(id) {
            Some(i) => {
                let mut entries = Vec::new();
                std::mem::swap(&mut entries, &mut self.entries);
                entries.remove(i);
                let ghost e = entries@;
                proof {
                    assert(e =~= old_entries.remove(i as int));
                    assert(keys_unique(e)) by {
                        assert forall|a: int, b: int| 0 <= a < b < e.len() implies (
                        #[trigger] e[a]).0@ != (#[trigger] e[b]).0@ by {
                            let a0 = if a < i { a } else { a + 1 };
                            let b0 = if b < i { b } else { b + 1 };
                            assert(e[a] == old_entries[a0] && e[b] == old_entries[b0]);
                        }
                    }
                    lemma_entries_map(e);
                    assert(entries_map(e) =~= entries_map(old_entries).remove(id@)) by {
                        assert forall|k: Seq<char>| #[trigger] entries_map(e).contains_key(k)
                            <==> entries_map(old_entries).remove(id@).contains_key(k) by {
                            if entries_map(e).contains_key(k) {
                                let j = choose|j: int| 0 <= j < e.len() && e[j].0@ == k;
                                let j0 = if j < i { j } else { j + 1 };
                                assert(e[j] == old_entries[j0]);
                            }
                            if entries_map(old_entries).remove(id@).contains_key(k) {
                                let j = choose|j: int| 0 <= j < old_entries.len() && old_entries[j].0@ == k;
                                assert(j != i);
                                let j1 = if j < i { j } else { j - 1 };
                                assert(e[j1] == old_entries[j]);
                            }
                        }
                        assert forall|k: Seq<char>| #[trigger] entries_map(e).contains_key(k)
                            implies entries_map(e)[k] == entries_map(old_entries).remove(id@)[k] by {
                            let j = choose|j: int| 0 <= j < e.len() && e[j].0@ == k;
                            let j0 = if j < i { j } else { j + 1 };
                            assert(e[j] == old_entries[j0]);
                        }
                    }
                }
                self.entries = entries;
            },
            None => {
                assert(entries_map(old_entries) =~= entries_map(old_entries).remove(id@));
            },
        }
    }

    /// Starts (or restarts) the animation of task `id` at `at`.
    pub fn insert(&mut self, id: String, at: T)
        ensures
            final(self).view() == old(self).view().insert(id@, at),
    {
        let ghost key = id@;
        self.remove(&id);
        proof {
            use_type_invariant(&*self);
            lemma_entries_map(self.entries@);
        }
        let mut entries = Vec::new();
        std::mem::swap(&mut entries, &mut self.entries);
        let ghost before = entries@;
        entries.push((id, at));
        proof {
            assert(keys_unique(entries@)) by {
                assert forall|a: int, b: int| 0 <= a < b < entries@.len() implies (
                #[trigger] entries@[a]).0@ != (#[trigger] entries@[b]).0@ by {
                    if b == before.len() {
                        assert(entries@[a] == before[a]);
                        assert(!entries_map(before).contains_key(key));
                    } else {
                        assert(entries@[a] == before[a] && entries@[b] == before[b]);
                    }
                }
            }
            assert(entries@.drop_last() =~= before);
            assert(entries_map(entries@) =~= entries_map(before).insert(key, at));
        }
        self.entries = entries;
    }

    /// Keeps only the animations of tasks in `tasks`.
    pub fn retain_tasks(&mut self, tasks: &Vec<Task>)
        ensures
            final(self).view() == old(self).view().restrict(task_ids(tasks@).to_set()),
    {
        proof {
            use_type_invariant(&*self);
            lemma_entries_map(self.entries@);
        }
        let ghost old_entries = self.entries@;
        let ghost ids = task_ids(tasks@).to_set();
        let mut entries = Vec::new();
        std::mem::swap(&mut entries, &mut self.entries);
        let mut kept: Vec<(String, T)> = Vec::new();
        let mut rest = entries;
        let n = rest.len();
        assert(old_entries.skip(0) =~= old_entries);
        while rest.len() > 0
            invariant
                n == old_entries.len(),
                rest.len() <= n,
                rest@ == old_entries.skip(n - rest.len()),
                keys_unique(old_entries),
                keys_unique(kept@),
                forall|j: int| 0 <= j < kept@.len() ==> ids.contains((#[trigger] kept@[j]).0@),
                forall|j: int| #![trigger kept@[j]] 0 <= j < kept@.len() ==> exists|m: int| 0 <= m < n - rest.len() && #[trigger] old_entries[m] == kept@[j],
                forall|m: int| #![trigger old_entries[m]] 0 <= m < n - rest.len() && ids.contains(old_entries[m].0@) ==> exists|j: int| 0 <= j < kept@.len() && #[trigger] kept@[j] == old_entries[m],
                ids == task_ids(tasks@).to_set(),
            decreases rest.len(),
        {
            let ghost i = n - rest.len();
            let entry = rest.remove(0);
            assert(entry == old_entries[i]);
            let mut present = false;
            let mut t: usize = 0;
            while t < tasks.len()
                invariant
                    t <= tasks.len(),
                    present == exists|q: int| 0 <= q < t && tasks@[q].id@ == entry.0@,
                decreases tasks.len() - t,
            {
                if tasks[t].id == entry.0 {
                    present = true;
                }
                t += 1;
            }
            proof {
                if present {
                    let q = choose|q: int| 0 <= q < t && tasks@[q].id@ == entry.0@;
                    assert(task_ids(tasks@)[q] == entry.0@);
                    assert(task_ids(tasks@).contains(entry.0@));
                }
                if ids.contains(entry.0@) {
                    assert(task_ids(tasks@).contains(entry.0@));
                    let q = choose|q: int| 0 <= q < task_ids(tasks@).len() && task_ids(tasks@)[q] == entry.0@;
                    assert(tasks@[q].id@ == entry.0@);
                }
            }
            if present {
                let ghost before = kept@;
                kept.push(entry);
                proof {
                    assert forall|a: int, b: int| 0 <= a < b < kept@.len() implies (
                    #[trigger] kept@[a]).0@ != (#[trigger] kept@[b]).0@ by {
                        if b == before.len() {
                            let m = choose|m: int| 0 <= m < i && #[trigger] old_entries[m] == kept@[a];
                            assert(old_entries[m].0@ != old_entries[i].0@);
                        } else {
                            assert(kept@[a] == before[a] && kept@[b] == before[b]);
                        }
                    }
                    assert forall|j: int| #![trigger kept@[j]] 0 <= j < kept@.len() implies exists|m: int| 0 <= m < i + 1 && #[trigger] old_entries[m] == kept@[j] by {
                        if j < before.len() {
                            assert(kept@[j] == before[j]);
                        } else {
                            assert(old_entries[i] == kept@[j]);
                        }
                    }
                    assert forall|m: int| #![trigger old_entries[m]] 0 <= m < i + 1 && ids.contains(old_entries[m].0@) implies exists|j: int| 0 <= j < kept@.len() && #[trigger] kept@[j] == old_entries[m] by {
                        if m < i {
                            let j = choose|j: int| 0 <= j < before.len() && #[trigger] before[j] == old_entries[m];
                            assert(kept@[j] == before[j]);
                        } else {
                            assert(kept@[before.len() as int] == old_entries[m]);
                        }
                    }
                }
            }
            assert(rest@ =~= old_entries.skip(n - rest.len()));
        }
        proof {
            lemma_entries_map(kept@);
            let a = entries_map(kept@);
            let b = entries_map(old_entries).restrict(ids);
            assert forall|k: Seq<char>| #[trigger] a.contains_key(k) <==> b.contains_key(k) by {
                if a.contains_key(k) {
                    let j = choose|j: int| 0 <= j < kept@.len() && kept@[j].0@ == k;
                    let m = choose|m: int| 0 <= m < n && #[trigger] old_entries[m] == kept@[j];
                    assert(ids.contains(kept@[j].0@));
                }
                if b.contains_key(k) {
                    let m = choose|m: int| 0 <= m < old_entries.len() && old_entries[m].0@ == k;
                    let j = choose|j: int| 0 <= j < kept@.len() && #[trigger] kept@[j] == old_entries[m];
                }
            }
            assert forall|k: Seq<char>| #[trigger] a.contains_key(k) implies a[k] == b[k] by {
                let j = choose|j: int| 0 <= j < kept@.len() && kept@[j].0@ == k;
                let m = choose|m: int| 0 <= m < n && #[trigger] old_entries[m] == kept@[j];
            }
            assert(a =~= b);
        }
        self.entries = kept;
    }
}

/// Whether each task was done at the last refresh, by task id (later tasks
/// with the same id win).
pub open spec fn done_map(tasks: Seq<Task>) -> Map<Seq<char>, bool>
    decreases tasks.len(),
{
    if tasks.len() == 0 {
        Map::empty()
    } else {
        done_map(tasks.drop_last()).insert(tasks.last().id@, tasks.last().status@ is Done)
    }
}

/// Whether the task `id` was done according to `m` (unknown ids were not).
pub open spec fn was_done(m: Map<Seq<char>, bool>, id: Seq<char>) -> bool {
    m.contains_key(id) && m[id]
}

/// The done state of the tasks of the previous refresh.
pub struct DoneStates {
    entries: Vec<(String, bool)>,
}

impl DoneStates {
    /// The done states, by task id.
    pub closed spec fn view(&self) -> Map<Seq<char>, bool> {
        entries_map(self.entries@)
    }

    /// Nothing was done before the first refresh.
    pub fn new() -> (r: DoneStates)
        ensures
            r.view() == Map::<Seq<char>, bool>::empty(),
    {
        DoneStates { entries: Vec::new() }
    }

    /// The done state of each of `tasks`.
    pub fn from_tasks(tasks: &Vec<Task>) -> (r: DoneStates)
        ensures
            r.view() == done_map(tasks@),
    {
        let mut entries: Vec<(String, bool)> = Vec::new();
        let mut i: usize = 0;
        while i < tasks.len()
            invariant
                i <= tasks.len(),
                entries_map(entries@) == done_map(tasks@.take(i as int)),
            decreases tasks.len() - i,
        {
            assert(tasks@.take(i + 1).drop_last() =~= tasks@.take(i as int));
            let ghost before = entries@;
            entries.push((tasks[i].id.clone(), tasks[i].is_done()));
            assert(entries@.drop_last() =~= before);
            i += 1;
        }
        assert(tasks@.take(i as int) =~= tasks@);
        DoneStates { entries }
    }

    /// Whether task `id` was done (`false` for an unknown id).
    pub fn was_done(&self, id: &String) -> (r: bool)
        ensures
            r == was_done(self.view(), id@),
    {
        let mut i = self.entries.len();
        assert(self.entries@.take(i as int) =~= self.entries@);
        while i > 0
            invariant
                i <= self.entries.len(),
                forall|j: int| i <= j < self.entries@.len() ==> #[trigger] self.entries@[j].0@ != id@,
                was_done(self.view(), id@) == was_done(entries_map(self.entries@.take(i as int)), id@),
            decreases i,
        {
            assert(self.entries@.take(i as int).drop_last() =~= self.entries@.take(i - 1));
            if self.entries[i - 1].0 == *id {
                return self.entries[i - 1].1;
            }
            i -= 1;
        }
        false
    }
}

/// The start times after a refresh brought `tasks`: timers of tasks that
/// are gone are dropped; then, task by task, a task that is done now but was
/// not before starts its animation at `now`, and a task that is not done
/// stops its animation.
pub open spec fn refreshed_timers<T>(
    timers: Map<Seq<char>, T>,
    previous: Map<Seq<char>, bool>,
    tasks: Seq<Task>,
    now: T,
) -> Map<Seq<char>, T> {
    apply_refresh(timers.restrict(task_ids(tasks).to_set()), previous, tasks, now)
}

/// The task-by-task part of `refreshed_timers`.
pub open spec fn apply_refresh<T>(
    timers: Map<Seq<char>, T>,
    previous: Map<Seq<char>, bool>,
    tasks: Seq<Task>,
    now: T,
) -> Map<Seq<char>, T>
    decreases tasks.len(),
{
    if tasks.len() == 0 {
        timers
    } else {
        let m = apply_refresh(timers, previous, tasks.drop_last(), now);
        let t = tasks.last();
        if (t.status@ is Done) && !was_done(previous, t.id@) {
            m.insert(t.id@, now)
        } else if !(t.status@ is Done) {
            m.remove(t.id@)
        } else {
            m
        }
    }
}

/// No later task in `tasks` has the id of task `i`.
pub open spec fn is_last_with_id(tasks: Seq<Task>, i: int) -> bool {
    0 <= i < tasks.len() && forall|j: int| i < j < tasks.len() ==> #[trigger] tasks[j].id@ != tasks[i].id@
}

proof fn lemma_apply_refresh<T>(
    timers: Map<Seq<char>, T>,
    previous: Map<Seq<char>, bool>,
    tasks: Seq<Task>,
    now: T,
)
    ensures
        forall|k: Seq<char>|
            #[trigger] apply_refresh(timers, previous, tasks, now).contains_key(k) ==> timers.contains_key(k)
                || task_ids(tasks).contains(k),
        forall|i: int|
            #[trigger] is_last_with_id(tasks, i) ==> {
                let t = tasks[i];
                let m = apply_refresh(timers, previous, tasks, now);
                &&& ((t.status@ is Done) && !was_done(previous, t.id@)) ==> (m.contains_key(t.id@)
                    && m[t.id@] == now)
                &&& !(t.status@ is Done) ==> !m.contains_key(t.id@)
            },
    decreases tasks.len(),
{
    if tasks.len() > 0 {
        let p = tasks.drop_last();
        lemma_apply_refresh(timers, previous, p, now);
        let m = apply_refresh(timers, previous, tasks, now);
        let m0 = apply_refresh(timers, previous, p, now);
        let last = tasks.last();
        assert forall|k: Seq<char>| #[trigger] m.contains_key(k) implies timers.contains_key(k)
            || task_ids(tasks).contains(k) by {
            if k != last.id@ {
                assert(m0.contains_key(k));
                if task_ids(p).contains(k) {
                    let q = choose|q: int| 0 <= q < task_ids(p).len() && task_ids(p)[q] == k;
                    assert(task_ids(tasks)[q] == k);
                }
            } else {
                assert(task_ids(tasks)[tasks.len() - 1] == k);
            }
        }
        assert forall|i: int| #[trigger] is_last_with_id(tasks, i) implies {
            let t = tasks[i];
            &&& ((t.status@ is Done) && !was_done(previous, t.id@)) ==> (m.contains_key(t.id@)
                && m[t.id@] == now)
            &&& !(t.status@ is Done) ==> !m.contains_key(t.id@)
        } by {
            if i < tasks.len() - 1 {
                assert(is_last_with_id(p, i)) by {
                    assert forall|j: int| i < j < p.len() implies #[trigger] p[j].id@ != p[i].id@ by {
                        assert(p[j] == tasks[j]);
                    }
                }
                assert(p[i] == tasks[i]);
                assert(last.id@ != tasks[i].id@);
            }
        }
    }
}

/// After a refresh, only tasks of the refresh have timers; the last task
/// with each id that became done since the previous refresh has its
/// animation started at `now`, and one that is not done has none.
pub proof fn lemma_refreshed_timers<T>(
    timers: Map<Seq<char>, T>,
    previous: Map<Seq<char>, bool>,
    tasks: Seq<Task>,
    now: T,
)
    ensures
        forall|k: Seq<char>|
            #[trigger] refreshed_timers(timers, previous, tasks, now).contains_key(k) ==> task_ids(
                tasks,
            ).contains(k),
        forall|i: int|
            #[trigger] is_last_with_id(tasks, i) ==> {
                let t = tasks[i];
                let m = refreshed_timers(timers, previous, tasks, now);
                &&& ((t.status@ is Done) && !was_done(previous, t.id@)) ==> (m.contains_key(t.id@)
                    && m[t.id@] == now)
                &&& !(t.status@ is Done) ==> !m.contains_key(t.id@)
            },
{
    let start = timers.restrict(task_ids(tasks).to_set());
    lemma_apply_refresh(start, previous, tasks, now);
    assert forall|k: Seq<char>| #[trigger] start.contains_key(k) implies task_ids(tasks).contains(k) by {
        assert(task_ids(tasks).to_set().contains(k));
    }
}

proof fn lemma_apply_refresh_keeps_done<T>(
    timers: Map<Seq<char>, T>,
    previous: Map<Seq<char>, bool>,
    tasks: Seq<Task>,
    now: T,
    id: Seq<char>,
)
    requires
        was_done(previous, id),
        forall|j: int| 0 <= j < tasks.len() && #[trigger] tasks[j].id@ == id ==> tasks[j].status@ is Done,
    ensures
        apply_refresh(timers, previous, tasks, now).contains_key(id) == timers.contains_key(id),
        timers.contains_key(id) ==> apply_refresh(timers, previous, tasks, now)[id] == timers[id],
    decreases tasks.len(),
{
    if tasks.len() > 0 {
        let p = tasks.drop_last();
        assert forall|j: int| 0 <= j < p.len() && #[trigger] p[j].id@ == id implies p[j].status@ is Done by {
            assert(p[j] == tasks[j]);
        }
        lemma_apply_refresh_keeps_done(timers, previous, p, now, id);
        let last = tasks.last();
        if last.id@ == id {
            assert(tasks[tasks.len() - 1].id@ == id);
        }
    }
}

/// A task that was done at the previous refresh and is done now (every task
/// with its id is done) keeps its timer as it was: a running animation goes
/// on from its start, and a finished one is not started again.
pub proof fn lemma_refresh_keeps_done_timers<T>(
    timers: Map<Seq<char>, T>,
    previous: Map<Seq<char>, bool>,
    tasks: Seq<Task>,
    now: T,
    id: Seq<char>,
)
    requires
        was_done(previous, id),
        task_ids(tasks).contains(id),
        forall|j: int| 0 <= j < tasks.len() && #[trigger] tasks[j].id@ == id ==> tasks[j].status@ is Done,
    ensures
        refreshed_timers(timers, previous, tasks, now).contains_key(id) == timers.contains_key(id),
        timers.contains_key(id) ==> refreshed_timers(timers, previous, tasks, now)[id] == timers[id],
{
    let start = timers.restrict(task_ids(tasks).to_set());
    assert(task_ids(tasks).to_set().contains(id));
    lemma_apply_refresh_keeps_done(start, previous, tasks, now, id);
}

/// Updates the animation start times after a refresh: a task that became
/// done starts its animation at `now`, one that is not done has none, and
/// tasks that are gone lose theirs.
pub fn update_completion_animations<T: Copy>(
    timers: &mut CompletionTimers<T>,
    previous: &DoneStates,
    tasks: &Vec<Task>,
    now: T,
)
    ensures
        final(timers).view() == refreshed_timers(old(timers).view(), previous.view(), tasks@, now),
{
    timers.retain_tasks(tasks);
    let ghost start = timers.view();
    let mut i: usize = 0;
    assert(tasks@.take(0) =~= Seq::<Task>::empty());
    while i < tasks.len()
        invariant
            i <= tasks.len(),
            timers.view() == apply_refresh(start, previous.view(), tasks@.take(i as int), now),
        decreases tasks.len() - i,
    {
        assert(tasks@.take(i + 1).drop_last() =~= tasks@.take(i as int));
        let task = &tasks[i];
        let done = task.is_done();
        if done && !previous.was_done(&task.id) {
            timers.insert(task.id.clone(), now);
        } else if !done {
            timers.remove(&task.id);
        }
        i += 1;
    }
    assert(tasks@.take(i as int) =~= tasks@);
}

} // verus!

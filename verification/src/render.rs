//! The globe's bookkeeping that is independent of geometry: the hover result,
//! the lineage hue of a task, and which cells each claim/completion trail
//! joins, in which order.
use vstd::prelude::*;
use crate::model::{
    Task, TaskSnapshot, TaskIndex, TrailEventKind, EventView, task_ids, last_index_of, texts,
};
use crate::sorting::{SortKey, KeyLess, keys_lt, sort_by_key, sort_by_key_vec};
use crate::text::{text_less, concat, text_lt, lemma_text_lt_irreflexive, lemma_text_lt_total, lemma_text_lt_transitive};
use crate::sorting::is_sorted_by_key;
use crate::sources::beads::opt_text;
use vstd::utf8::encode_utf8;

verus! {

/// What painting the globe reports back: the task under the pointer, by
/// position in the snapshot.
pub struct GlobeRenderOutput {
    pub hovered_task: Option<usize>,
}

// ---------------------------------------------------------------------------
// Text hashing and lineage hue
// ---------------------------------------------------------------------------

/// The FNV-1a offset basis (64 bits).
pub const FNV_OFFSET: u64 = 14695981039346656037;

/// The FNV-1a prime (64 bits).
pub const FNV_PRIME: u64 = 1099511628211;

/// One FNV-1a step: xor in the byte, then multiply, wrapping at 64 bits.
pub open spec fn fnv_step(h: u64, b: u8) -> u64 {
    (((h ^ (b as u64)) as nat * FNV_PRIME as nat) % 0x1_0000_0000_0000_0000) as u64
}

/// 64-bit FNV-1a of `bytes`.
pub open spec fn fnv1a(bytes: Seq<u8>) -> u64
    decreases bytes.len(),
{
    if bytes.len() == 0 {
        FNV_OFFSET
    } else {
        fnv_step(fnv1a(bytes.drop_last()), bytes.last())
    }
}

/// The hash of a text: FNV-1a of its UTF-8 bytes.
pub open spec fn text_hash(s: Seq<char>) -> u64 {
    fnv1a(encode_utf8(s))
}

/// The hash of a text: 64-bit FNV-1a of its UTF-8 bytes.
pub fn hash_text(text: &str) -> (r: u64)
    ensures
        r == text_hash(text@),
{
    let bytes = text.as_bytes();
    let mut hash: u64 = FNV_OFFSET;
    let mut i: usize = 0;
    assert(bytes@.take(0) =~= Seq::<u8>::empty());
    while i < bytes.len()
        invariant
            i <= bytes@.len(),
            bytes@ == encode_utf8(text@),
            hash == fnv1a(bytes@.take(i as int)),
        decreases bytes.len() - i,
    {
        assert(bytes@.take(i + 1).drop_last() =~= bytes@.take(i as int));
        hash = (hash ^ (bytes[i] as u64)).wrapping_mul(FNV_PRIME);
        i += 1;
    }
    assert(bytes@.take(i as int) =~= bytes@);
    hash
}

/// The seeds of a task's lineage: following its dependencies up to three
/// steps, the hash of the id of each task without dependencies that is
/// reached, and the hash of each dependency id that names no task; in
/// dependency order. A task more than three steps away adds nothing.
/// Dependencies are looked up in `ids`, the ids that the index was built
/// from, by last occurrence.
pub open spec fn root_seeds(ids: Seq<Seq<char>>, tasks: Seq<Task>, t: Task, depth: nat) -> Seq<u64>
    decreases 4 - depth, t.dependency_ids@.len() + 1,
{
    if depth > 3 {
        seq![]
    } else if t.dependency_ids@.len() == 0 {
        seq![text_hash(t.id@)]
    } else {
        dependency_seeds(ids, tasks, texts(t.dependency_ids@), depth)
    }
}

/// `root_seeds` over a list of dependency ids, concatenated.
pub open spec fn dependency_seeds(ids: Seq<Seq<char>>, tasks: Seq<Task>, deps: Seq<Seq<char>>, depth: nat) -> Seq<u64>
    decreases 4 - depth, deps.len(),
{
    if depth > 3 || deps.len() == 0 {
        seq![]
    } else {
        let rest = dependency_seeds(ids, tasks, deps.drop_last(), depth);
        match last_index_of(ids, deps.last()) {
            Some(i) => if 0 <= i < tasks.len() {
                rest + root_seeds(ids, tasks, tasks[i], depth + 1)
            } else {
                rest
            },
            None => rest.push(text_hash(deps.last())),
        }
    }
}

/// Every position that an index of the ids `ids` gives (the last position
/// of an id) is below `n`.
pub open spec fn positions_below(ids: Seq<Seq<char>>, n: nat) -> bool {
    forall|id: Seq<char>|
        #![trigger last_index_of(ids, id)]
        last_index_of(ids, id) matches Some(i) ==> i < n
}

/// Appends the lineage seeds of `task`, `depth` steps down, to `seeds`.
/// Every position that `index` gives must be a position of `tasks`.
pub fn collect_root_seeds(
    task: &Task,
    index: &TaskIndex,
    tasks: &Vec<Task>,
    seeds: &mut Vec<u64>,
    depth: usize,
)
    requires
        positions_below(index.ids(), tasks@.len()),
    ensures
        final(seeds)@ == old(seeds)@ + root_seeds(index.ids(), tasks@, *task, depth as nat),
    decreases 4 - depth, task.dependency_ids@.len() + 1,
{
    if depth > 3 {
        assert(old(seeds)@ + Seq::<u64>::empty() =~= old(seeds)@);
        return;
    }
    if task.dependency_ids.len() == 0 {
        let h = hash_text(task.id.as_str());
        let ghost before = seeds@;
        seeds.push(h);
        assert(seeds@ =~= before + seq![h]);
        return;
    }
    let ghost deps = texts(task.dependency_ids@);
    let ghost start = seeds@;
    let mut k: usize = 0;
    assert(deps.take(0) =~= Seq::<Seq<char>>::empty());
    assert(start + Seq::<u64>::empty() =~= start);
    while k < task.dependency_ids.len()
        invariant
            depth <= 3,
            k <= deps.len(),
            deps == texts(task.dependency_ids@),
            positions_below(index.ids(), tasks@.len()),
            seeds@ == start + dependency_seeds(index.ids(), tasks@, deps.take(k as int), depth as nat),
        decreases deps.len() - k,
    {
        assert(deps.take(k + 1).drop_last() =~= deps.take(k as int));
        assert(deps.take(k + 1).last() == task.dependency_ids@[k as int]@);
        let dependency = &task.dependency_ids[k];
        match index.get(dependency) {
            Some(i) => {
                proof {
                    crate::model::lemma_last_index_of(index.ids(), dependency@);
                }
                let ghost before = seeds@;
                collect_root_seeds(&tasks[i], index, tasks, seeds, depth + 1);
                assert(seeds@ =~= start + dependency_seeds(index.ids(), tasks@, deps.take(k + 1), depth as nat));
            },
            None => {
                let h = hash_text(dependency.as_str());
                seeds.push(h);
                assert(seeds@ =~= start + dependency_seeds(index.ids(), tasks@, deps.take(k + 1), depth as nat));
            },
        }
        k += 1;
    }
    assert(deps.take(k as int) =~= deps);
}

/// The xor of all `seeds`.
pub open spec fn xor_all(seeds: Seq<u64>) -> u64
    decreases seeds.len(),
{
    if seeds.len() == 0 {
        0
    } else {
        xor_all(seeds.drop_last()) ^ seeds.last()
    }
}

/// The lineage hue of a task, in whole degrees: the xor of its lineage seeds
/// (the hash of its own id when it has none) taken modulo 360.
pub open spec fn lineage_hue(ids: Seq<Seq<char>>, tasks: Seq<Task>, t: Task) -> u64 {
    let seeds = root_seeds(ids, tasks, t, 0);
    let combined = if seeds.len() == 0 {
        text_hash(t.id@)
    } else {
        xor_all(seeds)
    };
    combined % 360
}

/// The hue, in whole degrees, that outlines `task`: the integer part of its
/// outline colour. Every position that `index` gives must be a position of
/// `tasks`.
pub fn lineage_hue_degrees(task: &Task, index: &TaskIndex, tasks: &Vec<Task>) -> (r: u64)
    requires
        positions_below(index.ids(), tasks@.len()),
    ensures
        r == lineage_hue(index.ids(), tasks@, *task),
{
    let mut seeds: Vec<u64> = Vec::new();
    collect_root_seeds(task, index, tasks, &mut seeds, 0);
    assert(seeds@ =~= root_seeds(index.ids(), tasks@, *task, 0));
    if seeds.len() == 0 {
        seeds.push(hash_text(task.id.as_str()));
    }
    let mut combined: u64 = 0;
    let mut i: usize = 0;
    assert(seeds@.take(0) =~= Seq::<u64>::empty());
    while i < seeds.len()
        invariant
            i <= seeds.len(),
            combined == xor_all(seeds@.take(i as int)),
        decreases seeds.len() - i,
    {
        assert(seeds@.take(i + 1).drop_last() =~= seeds@.take(i as int));
        combined = combined ^ seeds[i];
        i += 1;
    }
    assert(seeds@.take(i as int) =~= seeds@);
    proof {
        if root_seeds(index.ids(), tasks@, *task, 0).len() == 0 {
            assert(seeds@.drop_last() =~= Seq::<u64>::empty());
            let h = seeds@[0];
            assert(0u64 ^ h == h) by (bit_vector);
        }
    }
    combined % 360
}

// ---------------------------------------------------------------------------
// Trails
// ---------------------------------------------------------------------------

/// Which trail is drawn: the claims or the completions.
#[derive(Clone, Copy, Debug, PartialEq, Eq, Structural)]
pub enum TrailKind {
    Claimed,
    Completed,
}

/// The time by which a claimed task is placed on its trail.
pub open spec fn claimed_key(t: Task) -> Option<Seq<char>> {
    match opt_text(t.claimed_at) {
        Some(s) => Some(s),
        None => opt_text(t.updated_at),
    }
}

/// The time by which a completed task is placed on its trail.
pub open spec fn completed_key(t: Task) -> Option<Seq<char>> {
    match opt_text(t.completed_at) {
        Some(s) => Some(s),
        None => opt_text(t.updated_at),
    }
}

/// Whether a task belongs on the trail of `kind`.
pub open spec fn matches_trail_kind(t: Task, kind: TrailKind) -> bool {
    match kind {
        TrailKind::Claimed => t.status@ is InProgress,
        TrailKind::Completed => t.status@ is Done,
    }
}

/// The text by which a task is ordered on the trail of `kind`: its time, or
/// its id when it has none.
pub open spec fn trail_key(t: Task, kind: TrailKind) -> Seq<char> {
    let k = match kind {
        TrailKind::Claimed => claimed_key(t),
        TrailKind::Completed => completed_key(t),
    };
    match k {
        Some(s) => s,
        None => t.id@,
    }
}

/// When the task was claimed, or else last updated.
pub fn claimed_sort_key(task: &Task) -> (r: Option<&String>)
    ensures
        match r {
            Some(s) => claimed_key(*task) == Some(s@),
            None => claimed_key(*task) is None,
        },
{
    match &task.claimed_at {
        Some(s) => Some(s),
        None => match &task.updated_at {
            Some(s) => Some(s),
            None => None,
        },
    }
}

/// When the task was completed, or else last updated.
pub fn completed_sort_key(task: &Task) -> (r: Option<&String>)
    ensures
        match r {
            Some(s) => completed_key(*task) == Some(s@),
            None => completed_key(*task) is None,
        },
{
    match &task.completed_at {
        Some(s) => Some(s),
        None => match &task.updated_at {
            Some(s) => Some(s),
            None => None,
        },
    }
}

/// Whether a task belongs on the trail of `kind`: claims show tasks in
/// progress, completions show done tasks.
pub fn task_matches_trail_kind(task: &Task, kind: TrailKind) -> (r: bool)
    ensures
        r == matches_trail_kind(*task, kind),
        r <==> ((kind is Claimed && task.status@ is InProgress) || (kind is Completed
            && task.status@ is Done)),
{
    match kind {
        TrailKind::Claimed => match task.status {
            crate::model::TaskStatus::InProgress => true,
            _ => false,
        },
        TrailKind::Completed => task.is_done(),
    }
}

/// The text by which a task is ordered on a trail: its time, or its id
/// when it has none.
pub fn trail_sort_key(task: &Task, kind: TrailKind) -> (r: &String)
    ensures
        r@ == trail_key(*task, kind),
{
    let k = match kind {
        TrailKind::Claimed => claimed_sort_key(task),
        TrailKind::Completed => completed_sort_key(task),
    };
    match k {
        Some(s) => s,
        None => &task.id,
    }
}

/// A stop on a trail: the trail's owner, the task, the layout cell that
/// shows it, and the time that orders it.
#[derive(Debug)]
pub struct TrailNode {
    pub owner: String,
    pub task_index: usize,
    pub cell: usize,
    pub timestamp: String,
}

/// What a `TrailNode` denotes.
pub struct NodeView {
    pub owner: Seq<char>,
    pub task_index: nat,
    pub cell: nat,
    pub timestamp: Seq<char>,
}

impl View for TrailNode {
    type V = NodeView;

    open spec fn view(&self) -> NodeView {
        NodeView {
            owner: self.owner@,
            task_index: self.task_index as nat,
            cell: self.cell as nat,
            timestamp: self.timestamp@,
        }
    }
}

/// Trail stops are ordered by owner, then time.
impl SortKey for TrailNode {
    open spec fn sort_key(&self) -> Seq<Seq<char>> {
        seq![self.owner@, self.timestamp@]
    }

    open spec fn key_width() -> nat {
        2
    }

    proof fn lemma_key_width(&self) {
    }
}

impl KeyLess for TrailNode {
    fn key_less(&self, other: &Self) -> (b: bool) {
        let ghost a = self.sort_key();
        let ghost c = other.sort_key();
        assert(a.drop_first() =~= seq![self.timestamp@]);
        assert(c.drop_first() =~= seq![other.timestamp@]);
        assert(a.drop_first().drop_first() =~= Seq::<Seq<char>>::empty());
        assert(c.drop_first().drop_first() =~= Seq::<Seq<char>>::empty());
        proof {
            lemma_text_lt_irreflexive(self.timestamp@);
            reveal_with_fuel(keys_lt, 3);
        }
        if self.owner != other.owner {
            text_less(self.owner.as_str(), other.owner.as_str())
        } else {
            text_less(self.timestamp.as_str(), other.timestamp.as_str())
        }
    }
}

impl SortKey for NodeView {
    open spec fn sort_key(&self) -> Seq<Seq<char>> {
        seq![self.owner, self.timestamp]
    }

    open spec fn key_width() -> nat {
        2
    }

    proof fn lemma_key_width(&self) {
    }
}

/// The views of a sequence of trail stops.
pub open spec fn node_views(nodes: Seq<TrailNode>) -> Seq<NodeView> {
    nodes.map_values(|n: TrailNode| n@)
}

/// Splits `s` into maximal runs of consecutive stops with the same owner.
pub open spec fn owner_runs(s: Seq<NodeView>) -> Seq<Seq<NodeView>>
    decreases s.len(),
{
    if s.len() == 0 {
        seq![]
    } else {
        let g = owner_runs(s.drop_last());
        if g.len() > 0 && g.last().last().owner == s.last().owner {
            g.update(g.len() - 1, g.last().push(s.last()))
        } else {
            g.push(seq![s.last()])
        }
    }
}

/// The shape of trails cut from stops ordered by owner and time: no trail
/// is empty, each has one owner, owners strictly increase from trail to
/// trail, times never decrease along a trail, and every stop comes from `s`.
pub open spec fn well_formed_trails(g: Seq<Seq<NodeView>>, s: Seq<NodeView>) -> bool {
    &&& forall|i: int| 0 <= i < g.len() ==> (#[trigger] g[i]).len() > 0
    &&& forall|i: int, a: int|
        0 <= i < g.len() && 0 <= a < g[i].len() ==> (#[trigger] g[i][a]).owner == g[i][0].owner
    &&& forall|i: int, j: int|
        0 <= i < j < g.len() ==> text_lt((#[trigger] g[i])[0].owner, (#[trigger] g[j])[0].owner)
    &&& forall|i: int, a: int, b: int|
        0 <= i < g.len() && 0 <= a < b < g[i].len() ==> !text_lt(
            (#[trigger] g[i][b]).timestamp,
            (#[trigger] g[i][a]).timestamp,
        )
    &&& forall|i: int, a: int|
        0 <= i < g.len() && 0 <= a < g[i].len() ==> s.contains(#[trigger] g[i][a])
}

proof fn lemma_node_keys(x: NodeView, y: NodeView)
    ensures
        crate::sorting::keys_lt(x.sort_key(), y.sort_key()) == if x.owner != y.owner {
            text_lt(x.owner, y.owner)
        } else {
            text_lt(x.timestamp, y.timestamp)
        },
{
    reveal_with_fuel(crate::sorting::keys_lt, 3);
    assert(x.sort_key().drop_first() =~= seq![x.timestamp]);
    assert(y.sort_key().drop_first() =~= seq![y.timestamp]);
    assert(x.sort_key().drop_first().drop_first() =~= Seq::<Seq<char>>::empty());
    assert(y.sort_key().drop_first().drop_first() =~= Seq::<Seq<char>>::empty());
    lemma_text_lt_irreflexive(x.timestamp);
}

/// Trails cut by owner from stops sorted by owner and time are well formed.
pub proof fn lemma_owner_runs_well_formed(s: Seq<NodeView>)
    requires
        is_sorted_by_key(s),
    ensures
        well_formed_trails(owner_runs(s), s),
        s.len() > 0 ==> owner_runs(s).len() > 0 && owner_runs(s).last().last() == s.last(),
    decreases s.len(),
{
    if s.len() > 0 {
        let p = s.drop_last();
        assert(is_sorted_by_key(p)) by {
            assert forall|i: int, j: int| 0 <= i < j < p.len() implies !crate::sorting::keys_lt(
                #[trigger] p[j].sort_key(),
                #[trigger] p[i].sort_key(),
            ) by {
                assert(p[i] == s[i] && p[j] == s[j]);
            }
        }
        lemma_owner_runs_well_formed(p);
        let g0 = owner_runs(p);
        let x = s.last();
        let g = owner_runs(s);
        // every stop of `p` is at most `x`
        assert forall|m: NodeView| p.contains(m) implies !crate::sorting::keys_lt(x.sort_key(), m.sort_key()) by {
            let k = choose|k: int| 0 <= k < p.len() && p[k] == m;
            assert(s[k] == m);
        }
        assert forall|i: int, a: int| 0 <= i < g0.len() && 0 <= a < g0[i].len() implies s.contains(
            #[trigger] g0[i][a],
        ) by {
            let k = choose|k: int| 0 <= k < p.len() && p[k] == g0[i][a];
            assert(s[k] == g0[i][a]);
        }
        if g0.len() > 0 && g0.last().last().owner == x.owner {
            let last = g0.len() - 1;
            let grown = g0.last().push(x);
            assert forall|a: int, b: int| 0 <= a < b < grown.len() implies !text_lt(
                grown[b].timestamp,
                grown[a].timestamp,
            ) by {
                if b == grown.len() - 1 {
                    assert(p.contains(grown[a]));
                    assert(grown[a].owner == g0[last][0].owner);
                    lemma_node_keys(x, grown[a]);
                } else {
                    assert(grown[a] == g0[last][a] && grown[b] == g0[last][b]);
                }
            }
            assert forall|i: int, a: int| 0 <= i < g.len() && 0 <= a < g[i].len() implies s.contains(
                #[trigger] g[i][a],
            ) by {
                if i == last && a == g[i].len() - 1 {
                    assert(g[i][a] == x);
                    assert(s[s.len() - 1] == x);
                } else {
                    assert(g[i][a] == g0[i][a]);
                }
            }
            assert forall|i: int, a: int, b: int|
                0 <= i < g.len() && 0 <= a < b < g[i].len() implies !text_lt(
                (#[trigger] g[i][b]).timestamp,
                (#[trigger] g[i][a]).timestamp,
            ) by {
                if i == last {
                    assert(g[i] == grown);
                } else {
                    assert(g[i] == g0[i]);
                }
            }
            assert forall|i: int, a: int|
                0 <= i < g.len() && 0 <= a < g[i].len() implies (#[trigger] g[i][a]).owner
                == g[i][0].owner by {
                if i == last {
                    assert(g[i] == grown);
                    if a == grown.len() - 1 {
                        assert(g0[last][g0[last].len() - 1].owner == g0[last][0].owner);
                    } else {
                        assert(grown[a] == g0[last][a]);
                    }
                    assert(grown[0] == g0[last][0]);
                } else {
                    assert(g[i] == g0[i]);
                }
            }
            assert forall|i: int, j: int| 0 <= i < j < g.len() implies text_lt(
                (#[trigger] g[i])[0].owner,
                (#[trigger] g[j])[0].owner,
            ) by {
                assert(g[i][0] == g0[i][0]);
                assert(g[j][0] == g0[j][0]);
            }
        } else {
            let single = seq![x];
            if g0.len() > 0 {
                let last = g0.len() - 1;
                let y = g0.last().last();
                assert(y == p.last());
                assert(p.contains(y));
                lemma_node_keys(x, y);
                lemma_text_lt_total(x.owner, y.owner);
                assert(text_lt(y.owner, x.owner));
                assert(y.owner == g0[last][0].owner);
                assert forall|i: int| 0 <= i < g0.len() implies text_lt((#[trigger] g0[i])[0].owner, x.owner) by {
                    if i < last {
                        lemma_text_lt_transitive(g0[i][0].owner, g0[last][0].owner, x.owner);
                    }
                }
            }
            assert forall|i: int, a: int| 0 <= i < g.len() && 0 <= a < g[i].len() implies s.contains(
                #[trigger] g[i][a],
            ) by {
                if i == g0.len() {
                    assert(g[i][a] == x);
                    assert(s[s.len() - 1] == x);
                } else {
                    assert(g[i][a] == g0[i][a]);
                }
            }
            assert forall|i: int, j: int| 0 <= i < j < g.len() implies text_lt(
                (#[trigger] g[i])[0].owner,
                (#[trigger] g[j])[0].owner,
            ) by {
                if j == g0.len() {
                    assert(g[j][0] == x);
                    assert(g[i] == g0[i]);
                } else {
                    assert(g[i] == g0[i] && g[j] == g0[j]);
                }
            }
            assert forall|i: int, a: int, b: int|
                0 <= i < g.len() && 0 <= a < b < g[i].len() implies !text_lt(
                (#[trigger] g[i][b]).timestamp,
                (#[trigger] g[i][a]).timestamp,
            ) by {
                if i < g0.len() {
                    assert(g[i] == g0[i]);
                }
            }
            assert forall|i: int, a: int|
                0 <= i < g.len() && 0 <= a < g[i].len() implies (#[trigger] g[i][a]).owner
                == g[i][0].owner by {
                if i < g0.len() {
                    assert(g[i] == g0[i]);
                }
            }
        }
    }
}

/// The task trails of a snapshot are well formed.
pub proof fn lemma_task_trails_well_formed(tasks: Seq<Task>, cells: Seq<usize>, kind: TrailKind)
    ensures
        well_formed_trails(
            task_trails(tasks, cells, kind),
            sort_by_key(task_nodes(tasks, cells, kind, tasks.len())),
        ),
{
    crate::sorting::lemma_sort_by_key_sorted(task_nodes(tasks, cells, kind, tasks.len()));
    lemma_owner_runs_well_formed(sort_by_key(task_nodes(tasks, cells, kind, tasks.len())));
}

proof fn lemma_task_nodes_stops(tasks: Seq<Task>, cells: Seq<usize>, kind: TrailKind, n: nat)
    ensures
        forall|k: int|
            0 <= k < task_nodes(tasks, cells, kind, n).len() ==> {
                let x = #[trigger] task_nodes(tasks, cells, kind, n)[k];
                x.task_index < tasks.len() && matches_trail_kind(tasks[x.task_index as int], kind)
            },
    decreases n,
{
    if n > 0 {
        lemma_task_nodes_stops(tasks, cells, kind, (n - 1) as nat);
        let rest = task_nodes(tasks, cells, kind, (n - 1) as nat);
        assert forall|k: int| 0 <= k < task_nodes(tasks, cells, kind, n).len() implies {
            let x = #[trigger] task_nodes(tasks, cells, kind, n)[k];
            x.task_index < tasks.len() && matches_trail_kind(tasks[x.task_index as int], kind)
        } by {
            if k < rest.len() {
                assert(task_nodes(tasks, cells, kind, n)[k] == rest[k]);
            }
        }
    }
}

/// Every stop of a task trail is a task of the snapshot that belongs on the
/// trail: on the claim trail only tasks in progress (never blocked or open
/// ones), on the completion trail only done tasks.
pub proof fn lemma_task_trail_stops(tasks: Seq<Task>, cells: Seq<usize>, kind: TrailKind)
    ensures
        forall|g: int, a: int|
            0 <= g < task_trails(tasks, cells, kind).len() && 0 <= a < task_trails(
                tasks,
                cells,
                kind,
            )[g].len() ==> {
                let x = #[trigger] task_trails(tasks, cells, kind)[g][a];
                &&& x.task_index < tasks.len()
                &&& kind is Claimed ==> tasks[x.task_index as int].status@ is InProgress
                &&& kind is Completed ==> tasks[x.task_index as int].status@ is Done
            },
{
    broadcast use vstd::seq_lib::group_to_multiset_ensures;

    let nodes = task_nodes(tasks, cells, kind, tasks.len());
    let sorted = sort_by_key(nodes);
    lemma_task_trails_well_formed(tasks, cells, kind);
    crate::sorting::lemma_sort_by_key_permutes(nodes);
    lemma_task_nodes_stops(tasks, cells, kind, tasks.len());
    let trails = task_trails(tasks, cells, kind);
    assert forall|g: int, a: int|
        0 <= g < trails.len() && 0 <= a < trails[g].len() implies {
            let x = #[trigger] task_trails(tasks, cells, kind)[g][a];
            &&& x.task_index < tasks.len()
            &&& kind is Claimed ==> tasks[x.task_index as int].status@ is InProgress
            &&& kind is Completed ==> tasks[x.task_index as int].status@ is Done
        } by {
        let x = trails[g][a];
        assert(sorted.contains(x));
        assert(sorted.to_multiset().count(x) > 0);
        assert(nodes.to_multiset().count(x) > 0);
        let k = choose|k: int| 0 <= k < nodes.len() && nodes[k] == x;
        assert(nodes[k] == x);
    }
}

/// Position of the last element of `s` equal to `x`, if any.
pub open spec fn last_position(s: Seq<usize>, x: nat) -> Option<nat>
    decreases s.len(),
{
    if s.len() == 0 {
        None
    } else if s.last() == x {
        Some((s.len() - 1) as nat)
    } else {
        last_position(s.drop_last(), x)
    }
}

/// The owner of a task's trail: its assignee, or `<source>:shared`.
pub open spec fn trail_owner(t: Task) -> Seq<char> {
    match opt_text(t.assignee) {
        Some(a) => a,
        None => t.source@ + ":shared"@,
    }
}

/// The stops of the task trails of `kind`: every task, in order, that
/// belongs on the trail and is shown by a cell (the last cell showing it).
pub open spec fn task_nodes(tasks: Seq<Task>, cells: Seq<usize>, kind: TrailKind, n: nat) -> Seq<NodeView>
    decreases n,
{
    if n == 0 {
        seq![]
    } else {
        let rest = task_nodes(tasks, cells, kind, (n - 1) as nat);
        let i = (n - 1) as nat;
        match last_position(cells, i) {
            Some(c) => if i < tasks.len() && matches_trail_kind(tasks[i as int], kind) {
                rest.push(
                    NodeView {
                        owner: trail_owner(tasks[i as int]),
                        task_index: i,
                        cell: c,
                        timestamp: trail_key(tasks[i as int], kind),
                    },
                )
            } else {
                rest
            },
            None => rest,
        }
    }
}

/// The trails of tasks, grouped by owner in owner order, each ordered by
/// time (ties keep task order).
pub open spec fn task_trails(tasks: Seq<Task>, cells: Seq<usize>, kind: TrailKind) -> Seq<Seq<NodeView>> {
    owner_runs(sort_by_key(task_nodes(tasks, cells, kind, tasks.len())))
}

/// The views of grouped trail stops.
pub open spec fn group_views(groups: Seq<Vec<TrailNode>>) -> Seq<Seq<NodeView>> {
    groups.map_values(|g: Vec<TrailNode>| node_views(g@))
}

/// Position of the last element of `cells` equal to `x`.
fn last_cell_of(cells: &Vec<usize>, x: usize) -> (r: Option<usize>)
    ensures
        match r {
            Some(c) => last_position(cells@, x as nat) == Some(c as nat),
            None => last_position(cells@, x as nat) is None,
        },
{
    let mut i = cells.len();
    assert(cells@.take(i as int) =~= cells@);
    while i > 0
        invariant
            i <= cells.len(),
            last_position(cells@, x as nat) == last_position(cells@.take(i as int), x as nat),
        decreases i,
    {
        assert(cells@.take(i as int).drop_last() =~= cells@.take(i - 1));
        if cells[i - 1] == x {
            return Some(i - 1);
        }
        i -= 1;
    }
    None
}

/// Groups stops, already ordered by owner and time, into runs per owner.
fn split_runs(nodes: Vec<TrailNode>) -> (r: Vec<Vec<TrailNode>>)
    ensures
        group_views(r@) == owner_runs(node_views(nodes@)),
{
    let ghost input = nodes@;
    let ghost all = node_views(nodes@);
    let n = nodes.len();
    let mut rest = nodes;
    let mut groups: Vec<Vec<TrailNode>> = Vec::new();
    assert(input.skip(0) =~= input);
    let mut current: Vec<TrailNode> = Vec::new();
    assert(all.take(0) =~= Seq::<NodeView>::empty());
    while rest.len() > 0
        invariant
            n == all.len(),
            rest.len() <= n,
            all == node_views(input),
            rest@ == input.skip(n - rest.len()),
            (current@.len() == 0 && n - rest.len() == 0 && groups@.len() == 0)
                || (current@.len() > 0 && group_views(groups@).push(node_views(current@))
                == owner_runs(all.take(n - rest.len()))),
        decreases rest.len(),
    {
        let ghost i = n - rest.len();
        let node = rest.remove(0);
        assert(node@ == all[i]);
        assert(all.take(i + 1).drop_last() =~= all.take(i));
        assert(all.take(i + 1).last() == all[i]);
        if current.len() > 0 && current[current.len() - 1].owner == node.owner {
            let ghost gv = group_views(groups@);
            let ghost cv = node_views(current@);
            current.push(node);
            assert(node_views(current@) =~= cv.push(node@));
            assert(gv.push(node_views(current@)) =~= gv.push(cv).update(gv.len() as int, cv.push(node@)));
        } else {
            if current.len() > 0 {
                let ghost gv = group_views(groups@);
                let done = current;
                groups.push(done);
                assert(group_views(groups@) =~= gv.push(node_views(done@)));
            } else {
                assert(owner_runs(all.take(i)) =~= Seq::<Seq<NodeView>>::empty());
            }
            current = Vec::new();
            let ghost gv2 = group_views(groups@);
            current.push(node);
            assert(node_views(current@) =~= seq![node@]);
        }
        assert(rest@ =~= input.skip(n - rest.len()));
    }
    assert(all.take(n as int) =~= all);
    if current.len() > 0 {
        let ghost gv = group_views(groups@);
        groups.push(current);
        assert(group_views(groups@) =~= gv.push(node_views(current@)));
    } else {
        assert(owner_runs(all) =~= Seq::<Seq<NodeView>>::empty());
        assert(group_views(groups@) =~= Seq::<Seq<NodeView>>::empty());
    }
    groups
}

/// Sorts stops by owner, then time (ties keep their order), and splits them
/// into one trail per owner.
fn group_by_owner(nodes: Vec<TrailNode>) -> (r: Vec<Vec<TrailNode>>)
    ensures
        group_views(r@) == owner_runs(sort_by_key(node_views(nodes@))),
{
    let ghost input = nodes@;
    let sorted = sort_by_key_vec(nodes);
    proof {
        crate::sorting::lemma_sort_by_key_map(input, |n: TrailNode| n@);
        assert(node_views(sorted@) == sort_by_key(node_views(input)));
    }
    split_runs(sorted)
}

/// The task trails of `kind`, drawn when the snapshot's activity gives no
/// trail: the stops of the tasks that belong on the trail and are
/// shown by a cell, grouped by owner in owner order and ordered by time.
/// `cells` gives, per layout cell, the position of the task it shows.
pub fn task_trail_groups(snapshot: &TaskSnapshot, cells: &Vec<usize>, kind: TrailKind) -> (r: Vec<
    Vec<TrailNode>,
>)
    ensures
        group_views(r@) == task_trails(snapshot.tasks@, cells@, kind),
{
    let tasks = &snapshot.tasks;
    let mut nodes: Vec<TrailNode> = Vec::new();
    let mut i: usize = 0;
    while i < tasks.len()
        invariant
            i <= tasks.len(),
            node_views(nodes@) == task_nodes(tasks@, cells@, kind, i as nat),
        decreases tasks.len() - i,
    {
        let task = &tasks[i];
        match last_cell_of(cells, i) {
            Some(c) => {
                if task_matches_trail_kind(task, kind) {
                    let timestamp = trail_sort_key(task, kind).clone();
                    let owner = match &task.assignee {
                        Some(a) => a.clone(),
                        None => concat(task.source.as_str(), ":shared"),
                    };
                    let ghost before = node_views(nodes@);
                    let node = TrailNode { owner, task_index: i, cell: c, timestamp };
                    nodes.push(node);
                    assert(node_views(nodes@) =~= before.push(node@));
                }
            },
            None => {},
        }
        i += 1;
    }
    group_by_owner(nodes)
}

/// Position of the last cell showing a task whose id is `id`.
pub open spec fn last_cell_with_id(tasks: Seq<Task>, cells: Seq<usize>, id: Seq<char>) -> Option<nat>
    decreases cells.len(),
{
    if cells.len() == 0 {
        None
    } else if cells.last() < tasks.len() && tasks[cells.last() as int].id@ == id {
        Some((cells.len() - 1) as nat)
    } else {
        last_cell_with_id(tasks, cells.drop_last(), id)
    }
}

/// The stops of the activity trails of `kind`: every event of that kind, in
/// order, whose task is shown by a cell (the last such cell); the stop's task
/// is the last task with the event's id.
pub open spec fn activity_nodes(tasks: Seq<Task>, cells: Seq<usize>, events: Seq<EventView>, kind: TrailEventKind) -> Seq<
    NodeView,
>
    decreases events.len(),
{
    if events.len() == 0 {
        seq![]
    } else {
        let rest = activity_nodes(tasks, cells, events.drop_last(), kind);
        let e = events.last();
        if e.kind != kind {
            rest
        } else {
            match (last_cell_with_id(tasks, cells, e.task_id), last_index_of(task_ids(tasks), e.task_id)) {
                (Some(c), Some(p)) => rest.push(
                    NodeView { owner: e.actor, task_index: p as nat, cell: c, timestamp: e.timestamp },
                ),
                _ => rest,
            }
        }
    }
}

/// `a` repeats `b`: the same task at the same time.
pub open spec fn same_stop(a: NodeView, b: NodeView) -> bool {
    a.task_index == b.task_index && a.timestamp == b.timestamp
}

/// `s` without each stop that repeats the stop right before it.
pub open spec fn drop_repeats(s: Seq<NodeView>) -> Seq<NodeView>
    decreases s.len(),
{
    if s.len() == 0 {
        seq![]
    } else {
        let rest = drop_repeats(s.drop_last());
        if s.len() >= 2 && same_stop(s.last(), s[s.len() - 2]) {
            rest
        } else {
            rest.push(s.last())
        }
    }
}

/// The activity trails: stops grouped by actor in actor order, each ordered
/// by time, without repeated stops.
pub open spec fn activity_trails(tasks: Seq<Task>, cells: Seq<usize>, events: Seq<EventView>, kind: TrailEventKind) -> Seq<
    Seq<NodeView>,
> {
    owner_runs(sort_by_key(activity_nodes(tasks, cells, events, kind))).map_values(
        |g: Seq<NodeView>| drop_repeats(g),
    )
}

proof fn lemma_drop_repeats_within(s: Seq<NodeView>)
    ensures
        forall|k: int| 0 <= k < drop_repeats(s).len() ==> s.contains(#[trigger] drop_repeats(s)[k]),
    decreases s.len(),
{
    if s.len() > 0 {
        let p = s.drop_last();
        lemma_drop_repeats_within(p);
        assert forall|k: int| 0 <= k < drop_repeats(s).len() implies s.contains(
            #[trigger] drop_repeats(s)[k],
        ) by {
            if k < drop_repeats(p).len() {
                assert(drop_repeats(s)[k] == drop_repeats(p)[k]);
                let q = choose|q: int| 0 <= q < p.len() && p[q] == drop_repeats(p)[k];
                assert(s[q] == p[q]);
            } else {
                assert(s[s.len() - 1] == drop_repeats(s)[k]);
            }
        }
    }
}

proof fn lemma_activity_nodes_from_events(
    tasks: Seq<Task>,
    cells: Seq<usize>,
    events: Seq<EventView>,
    kind: TrailEventKind,
)
    ensures
        forall|k: int|
            0 <= k < activity_nodes(tasks, cells, events, kind).len() ==> {
                let x = #[trigger] activity_nodes(tasks, cells, events, kind)[k];
                x.task_index < tasks.len() && exists|e: int|
                    0 <= e < events.len() && #[trigger] events[e].kind == kind && events[e].actor
                        == x.owner && events[e].timestamp == x.timestamp && events[e].task_id
                        == tasks[x.task_index as int].id@
            },
    decreases events.len(),
{
    if events.len() > 0 {
        let p = events.drop_last();
        lemma_activity_nodes_from_events(tasks, cells, p, kind);
        let rest = activity_nodes(tasks, cells, p, kind);
        let ev = events.last();
        crate::model::lemma_last_index_of(task_ids(tasks), ev.task_id);
        assert forall|k: int| 0 <= k < activity_nodes(tasks, cells, events, kind).len() implies {
            let x = #[trigger] activity_nodes(tasks, cells, events, kind)[k];
            x.task_index < tasks.len() && exists|e: int|
                0 <= e < events.len() && #[trigger] events[e].kind == kind && events[e].actor
                    == x.owner && events[e].timestamp == x.timestamp && events[e].task_id
                    == tasks[x.task_index as int].id@
        } by {
            let x = activity_nodes(tasks, cells, events, kind)[k];
            if k < rest.len() {
                assert(x == rest[k]);
                let e = choose|e: int|
                    0 <= e < p.len() && #[trigger] p[e].kind == kind && p[e].actor == x.owner
                        && p[e].timestamp == x.timestamp && p[e].task_id == tasks[x.task_index as int].id@;
                assert(events[e] == p[e]);
            } else {
                assert(events[events.len() - 1] == ev);
                assert(task_ids(tasks)[x.task_index as int] == tasks[x.task_index as int].id@);
            }
        }
    }
}

/// Every stop of an activity trail stands for an event of the trail's kind:
/// the stop's owner is the event's actor, its time the event's time, and its
/// task a task of the snapshot with the event's task id.
pub proof fn lemma_activity_trail_stops(
    tasks: Seq<Task>,
    cells: Seq<usize>,
    events: Seq<EventView>,
    kind: TrailEventKind,
)
    ensures
        forall|g: int, a: int|
            0 <= g < activity_trails(tasks, cells, events, kind).len() && 0 <= a < activity_trails(
                tasks,
                cells,
                events,
                kind,
            )[g].len() ==> {
                let x = #[trigger] activity_trails(tasks, cells, events, kind)[g][a];
                x.task_index < tasks.len() && exists|e: int|
                    0 <= e < events.len() && #[trigger] events[e].kind == kind && events[e].actor
                        == x.owner && events[e].timestamp == x.timestamp && events[e].task_id
                        == tasks[x.task_index as int].id@
            },
{
    broadcast use vstd::seq_lib::group_to_multiset_ensures;

    let nodes = activity_nodes(tasks, cells, events, kind);
    let sorted = sort_by_key(nodes);
    crate::sorting::lemma_sort_by_key_sorted(nodes);
    crate::sorting::lemma_sort_by_key_permutes(nodes);
    lemma_owner_runs_well_formed(sorted);
    lemma_activity_nodes_from_events(tasks, cells, events, kind);
    let runs = owner_runs(sorted);
    let trails = activity_trails(tasks, cells, events, kind);
    assert forall|g: int, a: int| 0 <= g < trails.len() && 0 <= a < trails[g].len() implies {
        let x = #[trigger] activity_trails(tasks, cells, events, kind)[g][a];
        x.task_index < tasks.len() && exists|e: int|
            0 <= e < events.len() && #[trigger] events[e].kind == kind && events[e].actor
                == x.owner && events[e].timestamp == x.timestamp && events[e].task_id
                == tasks[x.task_index as int].id@
    } by {
        let x = trails[g][a];
        assert(trails[g] == drop_repeats(runs[g]));
        lemma_drop_repeats_within(runs[g]);
        assert(runs[g].contains(x));
        let b = choose|b: int| 0 <= b < runs[g].len() && runs[g][b] == x;
        assert(sorted.contains(runs[g][b]));
        assert(sorted.to_multiset().count(x) > 0);
        assert(nodes.to_multiset().count(x) > 0);
        let k = choose|k: int| 0 <= k < nodes.len() && nodes[k] == x;
        assert(nodes[k] == x);
    }
}

/// Drops each stop that repeats the one right before it (`Vec::dedup_by`).
fn dedup_stops(nodes: Vec<TrailNode>) -> (r: Vec<TrailNode>)
    ensures
        node_views(r@) == drop_repeats(node_views(nodes@)),
{
    let ghost input = nodes@;
    let ghost all = node_views(nodes@);
    let n = nodes.len();
    let mut rest = nodes;
    let mut out: Vec<TrailNode> = Vec::new();
    assert(input.skip(0) =~= input);
    let mut prev_index: usize = 0;
    let mut prev_time = String::new();
    let mut has_prev = false;
    assert(all.take(0) =~= Seq::<NodeView>::empty());
    while rest.len() > 0
        invariant
            n == all.len(),
            rest.len() <= n,
            all == node_views(input),
            rest@ == input.skip(n - rest.len()),
            node_views(out@) == drop_repeats(all.take(n - rest.len())),
            has_prev == (n - rest.len() > 0),
            has_prev ==> (prev_index as nat == all[n - rest.len() - 1].task_index
                && prev_time@ == all[n - rest.len() - 1].timestamp),
        decreases rest.len(),
    {
        let ghost i = n - rest.len();
        let node = rest.remove(0);
        assert(node@ == all[i]);
        assert(all.take(i + 1).drop_last() =~= all.take(i));
        assert(all.take(i + 1).last() == all[i]);
        proof {
            if i > 0 {
                assert(all.take(i + 1)[i - 1] == all[i - 1]);
            }
        }
        let repeat = has_prev && node.task_index == prev_index && node.timestamp == prev_time;
        prev_index = node.task_index;
        prev_time = node.timestamp.clone();
        has_prev = true;
        if !repeat {
            let ghost before = node_views(out@);
            out.push(node);
            assert(node_views(out@) =~= before.push(all[i]));
        }
        assert(rest@ =~= input.skip(n - rest.len()));
    }
    assert(all.take(n as int) =~= all);
    out
}

/// Position of the last cell that shows a task whose id is `id`.
fn last_cell_for_id(tasks: &Vec<Task>, cells: &Vec<usize>, id: &String) -> (r: Option<usize>)
    ensures
        match r {
            Some(c) => last_cell_with_id(tasks@, cells@, id@) == Some(c as nat),
            None => last_cell_with_id(tasks@, cells@, id@) is None,
        },
{
    let mut i = cells.len();
    assert(cells@.take(i as int) =~= cells@);
    while i > 0
        invariant
            i <= cells.len(),
            last_cell_with_id(tasks@, cells@, id@) == last_cell_with_id(tasks@, cells@.take(i as int), id@),
        decreases i,
    {
        assert(cells@.take(i as int).drop_last() =~= cells@.take(i - 1));
        let t = cells[i - 1];
        if t < tasks.len() && tasks[t].id == *id {
            return Some(i - 1);
        }
        i -= 1;
    }
    None
}

/// The activity trails of `kind`: the stops
/// of the snapshot's trail events of that kind, grouped by actor in actor
/// order, ordered by time, without a stop that repeats the one before it.
pub fn activity_trail_groups(snapshot: &TaskSnapshot, cells: &Vec<usize>, kind: TrailEventKind) -> (r: Vec<
    Vec<TrailNode>,
>)
    ensures
        group_views(r@) == activity_trails(
            snapshot.tasks@,
            cells@,
            snapshot.trail_events@.map_values(|e: crate::model::TrailEvent| e@),
            kind,
        ),
{
    let tasks = &snapshot.tasks;
    let events = &snapshot.trail_events;
    let ghost evs = events@.map_values(|e: crate::model::TrailEvent| e@);
    let index = snapshot.task_index();
    let mut nodes: Vec<TrailNode> = Vec::new();
    let mut i: usize = 0;
    assert(evs.take(0) =~= Seq::<EventView>::empty());
    while i < events.len()
        invariant
            i <= events.len(),
            evs == events@.map_values(|e: crate::model::TrailEvent| e@),
            index.ids() == task_ids(tasks@),
            node_views(nodes@) == activity_nodes(tasks@, cells@, evs.take(i as int), kind),
        decreases events.len() - i,
    {
        assert(evs.take(i + 1).drop_last() =~= evs.take(i as int));
        assert(evs.take(i + 1).last() == events@[i as int]@);
        let event = &events[i];
        if event.kind == kind {
            match (last_cell_for_id(tasks, cells, &event.task_id), index.get(&event.task_id)) {
                (Some(c), Some(p)) => {
                    let ghost before = node_views(nodes@);
                    let node = TrailNode {
                        owner: event.actor.clone(),
                        task_index: p,
                        cell: c,
                        timestamp: event.timestamp.clone(),
                    };
                    nodes.push(node);
                    assert(node_views(nodes@) =~= before.push(node@));
                },
                _ => {},
            }
        }
        i += 1;
    }
    assert(evs.take(i as int) =~= evs);
    let groups = group_by_owner(nodes);
    let ghost gs = group_views(groups@);
    let ghost input = groups@;
    let mut out: Vec<Vec<TrailNode>> = Vec::new();
    let mut rest = groups;
    let n = rest.len();
    assert(input.skip(0) =~= input);
    while rest.len() > 0
        invariant
            n == gs.len(),
            rest.len() <= n,
            gs == group_views(input),
            rest@ == input.skip(n - rest.len()),
            out@.len() == n - rest.len(),
            forall|k: int| 0 <= k < out@.len() ==> #[trigger] node_views(out@[k]@) == drop_repeats(gs[k]),
        decreases rest.len(),
    {
        let ghost k = n - rest.len();
        let g = rest.remove(0);
        assert(node_views(g@) == gs[k]);
        out.push(dedup_stops(g));
        assert(rest@ =~= input.skip(n - rest.len()));
    }
    assert(group_views(out@) =~= gs.map_values(|g: Seq<NodeView>| drop_repeats(g)));
    out
}

/// The trails to draw for `kind`: the activity trails when the snapshot has
/// trail events and they give at least one trail (`Ok`), else the task
/// trails (`Err`), whose stops the painter still reorders by distance.
pub fn trail_groups(snapshot: &TaskSnapshot, cells: &Vec<usize>, kind: TrailKind) -> (r: Result<
    Vec<Vec<TrailNode>>,
    Vec<Vec<TrailNode>>,
>)
    ensures
        ({
            let ev_kind = match kind {
                TrailKind::Claimed => TrailEventKind::Claimed,
                TrailKind::Completed => TrailEventKind::Completed,
            };
            let act = activity_trails(
                snapshot.tasks@,
                cells@,
                snapshot.trail_events@.map_values(|e: crate::model::TrailEvent| e@),
                ev_kind,
            );
            if snapshot.trail_events@.len() > 0 && act.len() > 0 {
                r matches Ok(g) && group_views(g@) == act
            } else {
                r matches Err(g) && group_views(g@) == task_trails(snapshot.tasks@, cells@, kind)
            }
        }),
{
    if snapshot.trail_events.len() > 0 {
        let ev_kind = match kind {
            TrailKind::Claimed => TrailEventKind::Claimed,
            TrailKind::Completed => TrailEventKind::Completed,
        };
        let groups = activity_trail_groups(snapshot, cells, ev_kind);
        if groups.len() > 0 {
            return Ok(groups);
        }
    }
    Err(task_trail_groups(snapshot, cells, kind))
}

} // verus!

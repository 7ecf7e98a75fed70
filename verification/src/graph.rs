use vstd::prelude::*;
use vstd::string::StringExecFns;

use crate::activity_node::ActivityNode;
use crate::connection::{
    step_activity_to_mutex, step_mutex_to_activity, Connection, Direction,
};
use crate::mutex_node::MutexNode;

verus! {

/// One tick, measured in millionths of a tick.
pub const TICK_FULL_MICROS: u64 = 1_000_000;

/// The admission phase fires when tick progress crosses this threshold.
pub const TICK_HALF_MICROS: u64 = 500_000;

/// Default simulation rate: one tick per second, in thousandths of a tick
/// per second.
pub const DEFAULT_TICKS_PER_SECOND_MILLI: u32 = 1_000;

/// Opaque handle of an activity node, unique for the node's lifetime.
#[derive(Clone, Copy, PartialEq, Eq, Structural, PartialOrd, Ord, Hash, Debug)]
pub struct ActivityNodeId(pub usize);

/// Opaque handle of a mutex node, unique for the node's lifetime.
#[derive(Clone, Copy, PartialEq, Eq, Structural, PartialOrd, Ord, Hash, Debug)]
pub struct MutexNodeId(pub usize);

/// An activity node together with its handle. The registry keeps these in
/// insertion order; that order is meaningful for deterministic iteration.
pub struct ActivityEntry {
    pub id: ActivityNodeId,
    pub node: ActivityNode,
}

/// A mutex node together with its handle.
#[derive(Clone, Copy, PartialEq, Eq, Structural, Debug)]
pub struct MutexEntry {
    pub id: MutexNodeId,
    pub node: MutexNode,
}

/// One edge record. There is at most one record per (activity, mutex) pair.
#[derive(Clone, Copy, PartialEq, Eq, Structural, Debug)]
pub struct ConnectionEntry {
    pub activity_id: ActivityNodeId,
    pub mutex_id: MutexNodeId,
    pub connection: Connection,
}

pub open spec fn act_ids_unique(s: Seq<ActivityEntry>) -> bool {
    forall|i: int, j: int| 0 <= i < j < s.len() ==> s[i].id != s[j].id
}

pub open spec fn mutex_ids_unique(s: Seq<MutexEntry>) -> bool {
    forall|i: int, j: int| 0 <= i < j < s.len() ==> s[i].id != s[j].id
}

pub open spec fn conn_pairs_unique(s: Seq<ConnectionEntry>) -> bool {
    forall|i: int, j: int|
        0 <= i < j < s.len() ==> !(s[i].activity_id == s[j].activity_id
            && s[i].mutex_id == s[j].mutex_id)
}

pub open spec fn has_act(s: Seq<ActivityEntry>, id: ActivityNodeId) -> bool {
    exists|i: int| 0 <= i < s.len() && s[i].id == id
}

/// Index of the entry with the given id; meaningful only under `has_act`
/// together with `act_ids_unique`.
pub open spec fn act_index_of(s: Seq<ActivityEntry>, id: ActivityNodeId) -> int {
    choose|i: int| 0 <= i < s.len() && s[i].id == id
}

pub open spec fn act_node_of(s: Seq<ActivityEntry>, id: ActivityNodeId) -> ActivityNode {
    s[act_index_of(s, id)].node
}

pub open spec fn has_mutex(s: Seq<MutexEntry>, id: MutexNodeId) -> bool {
    exists|i: int| 0 <= i < s.len() && s[i].id == id
}

pub open spec fn mutex_index_of(s: Seq<MutexEntry>, id: MutexNodeId) -> int {
    choose|i: int| 0 <= i < s.len() && s[i].id == id
}

pub open spec fn mutex_node_of(s: Seq<MutexEntry>, id: MutexNodeId) -> MutexNode {
    s[mutex_index_of(s, id)].node
}

pub open spec fn has_conn(
    s: Seq<ConnectionEntry>,
    activity_id: ActivityNodeId,
    mutex_id: MutexNodeId,
) -> bool {
    exists|i: int|
        0 <= i < s.len() && s[i].activity_id == activity_id && s[i].mutex_id == mutex_id
}

pub open spec fn conn_index_of(
    s: Seq<ConnectionEntry>,
    activity_id: ActivityNodeId,
    mutex_id: MutexNodeId,
) -> int {
    choose|i: int|
        0 <= i < s.len() && s[i].activity_id == activity_id && s[i].mutex_id == mutex_id
}

/// Whether the connection table carries tokens from the mutex into the
/// activity for this pair: any record whose direction is not
/// `ActivityToMutex`.
pub open spec fn has_input_conn(
    conns: Seq<ConnectionEntry>,
    activity_id: ActivityNodeId,
    mutex_id: MutexNodeId,
) -> bool {
    exists|j: int|
        0 <= j < conns.len() && (#[trigger] conns[j]).activity_id == activity_id
            && conns[j].mutex_id == mutex_id && conns[j].connection.direction
            != Direction::ActivityToMutex
}

/// Whether the connection table carries tokens from the activity into the
/// mutex for this pair: any record whose direction is not
/// `MutexToActivity`.
pub open spec fn has_output_conn(
    conns: Seq<ConnectionEntry>,
    activity_id: ActivityNodeId,
    mutex_id: MutexNodeId,
) -> bool {
    exists|j: int|
        0 <= j < conns.len() && (#[trigger] conns[j]).activity_id == activity_id
            && conns[j].mutex_id == mutex_id && conns[j].connection.direction
            != Direction::MutexToActivity
}

/// Readiness: every input connection of the activity whose mutex is
/// present holds a positive token count. An activity without input
/// connections is always ready.
pub open spec fn spec_ready(
    muts: Seq<MutexEntry>,
    conns: Seq<ConnectionEntry>,
    activity_id: ActivityNodeId,
) -> bool {
    forall|j: int|
        0 <= j < conns.len() && (#[trigger] conns[j]).activity_id == activity_id
            && conns[j].connection.direction != Direction::ActivityToMutex
            && has_mutex(muts, conns[j].mutex_id)
            ==> mutex_node_of(muts, conns[j].mutex_id).value > 0
}

/// Token count after one guarded increment: settlement saturates instead
/// of overflowing.
pub open spec fn sat_inc(v: u32) -> u32 {
    if v < u32::MAX {
        (v + 1) as u32
    } else {
        v
    }
}

/// The mutex registry after an admitted activity consumed one token from
/// every input-connected mutex.
pub open spec fn consume_inputs(
    muts: Seq<MutexEntry>,
    conns: Seq<ConnectionEntry>,
    activity_id: ActivityNodeId,
) -> Seq<MutexEntry> {
    Seq::new(
        muts.len(),
        |k: int|
            if has_input_conn(conns, activity_id, muts[k].id) {
                (MutexEntry {
                    id: muts[k].id,
                    node: (MutexNode {
                        value: (muts[k].node.value - 1) as u32,
                        ..muts[k].node
                    }),
                })
            } else {
                muts[k]
            },
    )
}

/// The mutex registry after a finished activity produced one token on
/// every output-connected mutex.
pub open spec fn produce_outputs(
    muts: Seq<MutexEntry>,
    conns: Seq<ConnectionEntry>,
    activity_id: ActivityNodeId,
) -> Seq<MutexEntry> {
    Seq::new(
        muts.len(),
        |k: int|
            if has_output_conn(conns, activity_id, muts[k].id) {
                (MutexEntry {
                    id: muts[k].id,
                    node: (MutexNode { value: sat_inc(muts[k].node.value), ..muts[k].node }),
                })
            } else {
                muts[k]
            },
    )
}

/// One settlement step: the activity at index `i` loses one tick of
/// remaining duration if it is running, and on reaching zero it feeds its
/// output mutexes.
pub open spec fn settle_step(
    acts: Seq<ActivityEntry>,
    muts: Seq<MutexEntry>,
    conns: Seq<ConnectionEntry>,
    i: int,
) -> (Seq<ActivityEntry>, Seq<MutexEntry>) {
    let e = acts[i];
    if e.node.remaining_duration > 0 {
        let acts2 = acts.update(
            i,
            (ActivityEntry {
                id: e.id,
                node: (ActivityNode {
                    remaining_duration: (e.node.remaining_duration - 1) as u32,
                    ..e.node
                }),
            }),
        );
        let muts2 = if e.node.remaining_duration == 1 {
            produce_outputs(muts, conns, e.id)
        } else {
            muts
        };
        (acts2, muts2)
    } else {
        (acts, muts)
    }
}

/// Settlement of every activity from index `i` on, in registry order.
pub open spec fn settle_seq(
    acts: Seq<ActivityEntry>,
    muts: Seq<MutexEntry>,
    conns: Seq<ConnectionEntry>,
    i: int,
) -> (Seq<ActivityEntry>, Seq<MutexEntry>)
    decreases acts.len() - i,
{
    if i < 0 || i >= acts.len() {
        (acts, muts)
    } else {
        let s = settle_step(acts, muts, conns, i);
        settle_seq(s.0, s.1, conns, i + 1)
    }
}

/// Tie-break between two activities of equal priority, from the seed
/// drawn once per admission pass. For any fixed seed this is a strict
/// total order on distinct ids (one parity orders ids descending, the
/// other ascending), so the contention order is deterministic,
/// antisymmetric and transitive within one pass.
pub open spec fn tie_precedes(seed: u64, a: usize, b: usize) -> bool {
    if seed % 2 == 0 {
        a > b
    } else {
        a < b
    }
}

/// The contention order of one admission pass: higher priority first,
/// exact priority ties broken by `tie_precedes`.
pub open spec fn entry_precedes(seed: u64, e1: ActivityEntry, e2: ActivityEntry) -> bool {
    e1.node.priority > e2.node.priority || (e1.node.priority == e2.node.priority && tie_precedes(
        seed,
        e1.id.0,
        e2.id.0,
    ))
}

/// On entries with distinct ids the contention order is total and
/// antisymmetric.
pub proof fn lemma_entry_precedes_total(seed: u64, e1: ActivityEntry, e2: ActivityEntry)
    requires
        e1.id != e2.id,
    ensures
        entry_precedes(seed, e1, e2) || entry_precedes(seed, e2, e1),
        !(entry_precedes(seed, e1, e2) && entry_precedes(seed, e2, e1)),
{
}

/// The contention order is transitive.
pub proof fn lemma_entry_precedes_trans(
    seed: u64,
    e1: ActivityEntry,
    e2: ActivityEntry,
    e3: ActivityEntry,
)
    requires
        entry_precedes(seed, e1, e2),
        entry_precedes(seed, e2, e3),
    ensures
        entry_precedes(seed, e1, e3),
{
}

/// A valid processing order for one admission pass: a permutation of the
/// activity indices, sorted by the contention order.
pub open spec fn is_admission_order(order: Seq<usize>, acts: Seq<ActivityEntry>, seed: u64) -> bool {
    &&& order.len() == acts.len()
    &&& forall|i: int| 0 <= i < order.len() ==> (#[trigger] order[i]) < acts.len()
    &&& forall|i: int, j: int| 0 <= i < j < order.len() ==> order[i] != order[j]
    &&& forall|i: int, j: int|
        0 <= i < j < order.len() ==> entry_precedes(
            seed,
            acts[order[i] as int],
            acts[order[j] as int],
        )
}

/// One admission step: the activity at index `idx` starts iff it is idle,
/// has a positive duration and every input-connected, present mutex holds
/// a token; starting sets its remaining duration to the full duration and
/// consumes one token from each input-connected mutex.
pub open spec fn admit_at(
    acts: Seq<ActivityEntry>,
    muts: Seq<MutexEntry>,
    conns: Seq<ConnectionEntry>,
    idx: int,
) -> (Seq<ActivityEntry>, Seq<MutexEntry>) {
    let e = acts[idx];
    if e.node.remaining_duration == 0 && e.node.duration >= 1 && spec_ready(muts, conns, e.id) {
        (
            acts.update(
                idx,
                (ActivityEntry {
                    id: e.id,
                    node: (ActivityNode { remaining_duration: e.node.duration, ..e.node }),
                }),
            ),
            consume_inputs(muts, conns, e.id),
        )
    } else {
        (acts, muts)
    }
}

/// Admission of every activity, in contention order. Consumption by an
/// earlier (higher-ranked) activity is visible to later readiness checks,
/// which is what makes priority a true scheduling precedence.
pub open spec fn admit_seq(
    acts: Seq<ActivityEntry>,
    muts: Seq<MutexEntry>,
    conns: Seq<ConnectionEntry>,
    order: Seq<usize>,
) -> (Seq<ActivityEntry>, Seq<MutexEntry>)
    decreases order.len(),
{
    if order.len() == 0 {
        (acts, muts)
    } else {
        let s = admit_at(acts, muts, conns, order[0] as int);
        admit_seq(s.0, s.1, conns, order.drop_first())
    }
}

/// What one admission pass never does: it never touches a node's
/// identity, position, names, priority or duration, and it never changes
/// the remaining duration of a node that was already running. A change
/// always goes from idle straight to the full (positive) duration.
pub open spec fn admission_frame(pre: Seq<ActivityEntry>, post: Seq<ActivityEntry>) -> bool {
    &&& post.len() == pre.len()
    &&& forall|i: int|
        0 <= i < pre.len() ==> {
            let a = pre[i];
            let b = #[trigger] post[i];
            &&& b.id == a.id
            &&& b.node.pos == a.node.pos
            &&& b.node.task_name == a.node.task_name
            &&& b.node.activity_name == a.node.activity_name
            &&& b.node.priority == a.node.priority
            &&& b.node.duration == a.node.duration
            &&& (a.node.remaining_duration > 0 ==> b.node.remaining_duration
                == a.node.remaining_duration)
            &&& (b.node.remaining_duration != a.node.remaining_duration ==> (
            a.node.remaining_duration == 0 && b.node.remaining_duration == a.node.duration
                && a.node.duration >= 1))
        }
}

/// What one admission pass does to the mutex registry: identities and
/// positions stay, token counts can only go down (by consumption).
pub open spec fn muts_frame_dec(pre: Seq<MutexEntry>, post: Seq<MutexEntry>) -> bool {
    &&& post.len() == pre.len()
    &&& forall|k: int|
        0 <= k < pre.len() ==> {
            let a = pre[k];
            let b = #[trigger] post[k];
            &&& b.id == a.id
            &&& b.node.pos == a.node.pos
            &&& b.node.value <= a.node.value
        }
}

/// The relation one admission pass establishes for a given seed: all but
/// the node registries untouched, and the registries the result of
/// admitting in some (necessarily unique) contention order for that seed.
pub open spec fn tick_a_rel(pre: Graph, post: Graph, seed: u64) -> bool {
    &&& post.eq_except_nodes_and_connections(pre)
    &&& post.connections@ == pre.connections@
    &&& exists|order: Seq<usize>|
        is_admission_order(order, pre.activity_nodes@, seed) && admit_seq(
            pre.activity_nodes@,
            pre.mutex_nodes@,
            pre.connections@,
            order,
        ) == (post.activity_nodes@, post.mutex_nodes@)
}

/// The relation one settlement pass establishes: all but the node
/// registries untouched, and the registries settled in registry order.
pub open spec fn tick_b_rel(pre: Graph, post: Graph) -> bool {
    &&& post.eq_except_nodes_and_connections(pre)
    &&& post.connections@ == pre.connections@
    &&& ({
        let s = settle_seq(pre.activity_nodes@, pre.mutex_nodes@, pre.connections@, 0);
        post.activity_nodes@ == s.0 && post.mutex_nodes@ == s.1
    })
}

/// `post` is `pre` after one connection-state update pass.
pub open spec fn conns_updated(pre: Graph, post: Graph) -> bool {
    &&& post.eq_except_connections(pre)
    &&& post.connections@ == pre.spec_update_connection_states()
}

/// One admission firing as the scheduler sees it: admission with some
/// seed, then a connection-state update pass.
pub open spec fn phase_a_fired(pre: Graph, post: Graph) -> bool {
    exists|mid: Graph, seed: u64| tick_a_rel(pre, mid, seed) && conns_updated(mid, post)
}

/// One settlement firing as the scheduler sees it: settlement, then a
/// connection-state update pass.
pub open spec fn phase_b_fired(pre: Graph, post: Graph) -> bool {
    exists|mid: Graph| tick_b_rel(pre, mid) && conns_updated(mid, post)
}

/// The simulation graph: node registries, the connection table and the
/// tick scheduler's state.
pub struct Graph {
    /// Display name of the graph; not written by the text codec.
    pub name: String,
    /// Activity nodes in insertion order.
    pub activity_nodes: Vec<ActivityEntry>,
    /// Mutex nodes in insertion order.
    pub mutex_nodes: Vec<MutexEntry>,
    /// Sparse connection table, at most one record per (activity, mutex)
    /// pair. Records may name nodes that are not (or not yet) present;
    /// such records are inert until both endpoints exist.
    pub connections: Vec<ConnectionEntry>,
    /// Next free activity handle; strictly above every present handle.
    pub next_activity_id: ActivityNodeId,
    /// Next free mutex handle; strictly above every present handle.
    pub next_mutex_id: MutexNodeId,
    /// Progress into the current tick, in millionths of a tick; always
    /// below one full tick between scheduler invocations.
    pub tick_progress_micros: u64,
    /// Simulation rate, in thousandths of a tick per second.
    pub ticks_per_second_milli: u32,
    /// `-1` runs indefinitely, `0` is paused, a positive count runs that
    /// many more ticks and then pauses.
    pub remaining_ticks_to_run: i32,
}

impl Graph {
    /// The registry part of the graph invariant: handles are unique and
    /// below their allocator, every node satisfies its own invariant, and
    /// there is at most one connection record per pair. The scheduler
    /// lets tick progress exceed one tick transiently inside a single
    /// `tick` call, so this part is stated separately.
    pub open spec fn wf_nodes(self) -> bool {
        &&& act_ids_unique(self.activity_nodes@)
        &&& mutex_ids_unique(self.mutex_nodes@)
        &&& conn_pairs_unique(self.connections@)
        &&& forall|i: int|
            0 <= i < self.activity_nodes@.len() ==> (#[trigger] self.activity_nodes@[i]).node.wf()
        &&& forall|i: int|
            0 <= i < self.mutex_nodes@.len() ==> (#[trigger] self.mutex_nodes@[i]).node.wf()
        &&& forall|i: int|
            0 <= i < self.activity_nodes@.len()
                ==> (#[trigger] self.activity_nodes@[i]).id.0 < self.next_activity_id.0
        &&& forall|i: int|
            0 <= i < self.mutex_nodes@.len()
                ==> (#[trigger] self.mutex_nodes@[i]).id.0 < self.next_mutex_id.0
    }

    /// The full graph invariant: the registries are well formed and tick
    /// progress lies inside one tick.
    pub open spec fn wf(self) -> bool {
        &&& self.wf_nodes()
        &&& self.tick_progress_micros < TICK_FULL_MICROS
    }

    /// Everything but the connection table agrees.
    pub open spec fn eq_except_connections(self, other: Graph) -> bool {
        &&& self.name == other.name
        &&& self.activity_nodes == other.activity_nodes
        &&& self.mutex_nodes == other.mutex_nodes
        &&& self.next_activity_id == other.next_activity_id
        &&& self.next_mutex_id == other.next_mutex_id
        &&& self.tick_progress_micros == other.tick_progress_micros
        &&& self.ticks_per_second_milli == other.ticks_per_second_milli
        &&& self.remaining_ticks_to_run == other.remaining_ticks_to_run
    }

    /// Everything but node contents and the connection table agrees: the
    /// shape left untouched by a simulation phase.
    pub open spec fn eq_except_nodes_and_connections(self, other: Graph) -> bool {
        &&& self.name == other.name
        &&& self.next_activity_id == other.next_activity_id
        &&& self.next_mutex_id == other.next_mutex_id
        &&& self.tick_progress_micros == other.tick_progress_micros
        &&& self.ticks_per_second_milli == other.ticks_per_second_milli
        &&& self.remaining_ticks_to_run == other.remaining_ticks_to_run
    }
}

impl Default for Graph {
    /// An empty, paused graph at the default rate.
    fn default() -> (g: Graph)
        ensures
            g.wf(),
            g.name@ == "Unnamed Graph"@,
            g.activity_nodes@ == Seq::<ActivityEntry>::empty(),
            g.mutex_nodes@ == Seq::<MutexEntry>::empty(),
            g.connections@ == Seq::<ConnectionEntry>::empty(),
            g.next_activity_id.0 == 0,
            g.next_mutex_id.0 == 0,
            g.tick_progress_micros == 0,
            g.ticks_per_second_milli == DEFAULT_TICKS_PER_SECOND_MILLI,
            g.remaining_ticks_to_run == 0,
    {
        Graph {
            name: String::from_str("Unnamed Graph"),
            activity_nodes: Vec::new(),
            mutex_nodes: Vec::new(),
            connections: Vec::new(),
            next_activity_id: ActivityNodeId(0),
            next_mutex_id: MutexNodeId(0),
            tick_progress_micros: 0,
            ticks_per_second_milli: DEFAULT_TICKS_PER_SECOND_MILLI,
            remaining_ticks_to_run: 0,
        }
    }
}

impl Clone for Graph {
    /// An exact copy: every registry entry, the connection table and
    /// the scheduler state carry over unchanged.
    fn clone(&self) -> (res: Graph)
        ensures
            res.name == self.name,
            res.activity_nodes@ == self.activity_nodes@,
            res.mutex_nodes@ == self.mutex_nodes@,
            res.connections@ == self.connections@,
            res.next_activity_id == self.next_activity_id,
            res.next_mutex_id == self.next_mutex_id,
            res.tick_progress_micros == self.tick_progress_micros,
            res.ticks_per_second_milli == self.ticks_per_second_milli,
            res.remaining_ticks_to_run == self.remaining_ticks_to_run,
    {
        let mut activity_nodes: Vec<ActivityEntry> = Vec::new();
        let an = self.activity_nodes.len();
        for i in 0..an
            invariant
                an == self.activity_nodes@.len(),
                activity_nodes@ =~= self.activity_nodes@.subrange(0, i as int),
        {
            let e = &self.activity_nodes[i];
            activity_nodes.push(
                ActivityEntry {
                    id: e.id,
                    node: ActivityNode {
                        pos: e.node.pos,
                        task_name: e.node.task_name.clone(),
                        activity_name: e.node.activity_name.clone(),
                        priority: e.node.priority,
                        duration: e.node.duration,
                        remaining_duration: e.node.remaining_duration,
                    },
                },
            );
            proof {
                assert(activity_nodes@ =~= self.activity_nodes@.subrange(0, i as int + 1));
            }
        }
        let mut mutex_nodes: Vec<MutexEntry> = Vec::new();
        let mn = self.mutex_nodes.len();
        for i in 0..mn
            invariant
                mn == self.mutex_nodes@.len(),
                mutex_nodes@ =~= self.mutex_nodes@.subrange(0, i as int),
        {
            mutex_nodes.push(self.mutex_nodes[i]);
            proof {
                assert(mutex_nodes@ =~= self.mutex_nodes@.subrange(0, i as int + 1));
            }
        }
        let mut connections: Vec<ConnectionEntry> = Vec::new();
        let cn = self.connections.len();
        for i in 0..cn
            invariant
                cn == self.connections@.len(),
                connections@ =~= self.connections@.subrange(0, i as int),
        {
            connections.push(self.connections[i]);
            proof {
                assert(connections@ =~= self.connections@.subrange(0, i as int + 1));
            }
        }
        proof {
            assert(activity_nodes@ =~= self.activity_nodes@);
            assert(mutex_nodes@ =~= self.mutex_nodes@);
            assert(connections@ =~= self.connections@);
        }
        Graph {
            name: self.name.clone(),
            activity_nodes,
            mutex_nodes,
            connections,
            next_activity_id: self.next_activity_id,
            next_mutex_id: self.next_mutex_id,
            tick_progress_micros: self.tick_progress_micros,
            ticks_per_second_milli: self.ticks_per_second_milli,
            remaining_ticks_to_run: self.remaining_ticks_to_run,
        }
    }
}

// Node registry operations.
impl Graph {
    /// Index of the activity entry with the given id, if present.
    pub fn find_activity_index(&self, id: ActivityNodeId) -> (r: Option<usize>)
        ensures
            match r {
                Some(i) => i < self.activity_nodes@.len() && self.activity_nodes@[i as int].id
                    == id,
                None => !has_act(self.activity_nodes@, id),
            },
    {
        let n = self.activity_nodes.len();
        for i in 0..n
            invariant
                n == self.activity_nodes@.len(),
                forall|j: int| 0 <= j < i ==> (#[trigger] self.activity_nodes@[j]).id != id,
        {
            if self.activity_nodes[i].id.0 == id.0 {
                return Some(i);
            }
        }
        None
    }

    /// Index of the mutex entry with the given id, if present.
    pub fn find_mutex_index(&self, id: MutexNodeId) -> (r: Option<usize>)
        ensures
            match r {
                Some(i) => i < self.mutex_nodes@.len() && self.mutex_nodes@[i as int].id == id,
                None => !has_mutex(self.mutex_nodes@, id),
            },
    {
        let n = self.mutex_nodes.len();
        for i in 0..n
            invariant
                n == self.mutex_nodes@.len(),
                forall|j: int| 0 <= j < i ==> (#[trigger] self.mutex_nodes@[j]).id != id,
        {
            if self.mutex_nodes[i].id.0 == id.0 {
                return Some(i);
            }
        }
        None
    }

    /// Index of the connection record for the given pair, if present.
    pub fn find_connection_index(
        &self,
        activity_id: ActivityNodeId,
        mutex_id: MutexNodeId,
    ) -> (r: Option<usize>)
        ensures
            match r {
                Some(i) => i < self.connections@.len() && self.connections@[i as int].activity_id
                    == activity_id && self.connections@[i as int].mutex_id == mutex_id,
                None => !has_conn(self.connections@, activity_id, mutex_id),
            },
    {
        let n = self.connections.len();
        for i in 0..n
            invariant
                n == self.connections@.len(),
                forall|j: int|
                    0 <= j < i ==> !((#[trigger] self.connections@[j]).activity_id == activity_id
                        && self.connections@[j].mutex_id == mutex_id),
        {
            if self.connections[i].activity_id.0 == activity_id.0
                && self.connections[i].mutex_id.0 == mutex_id.0 {
                return Some(i);
            }
        }
        None
    }

    /// Insert an activity node under a caller-chosen id. An existing node
    /// with that id is replaced in place; otherwise the node is appended,
    /// keeping insertion order. The allocator is bumped past the id.
    pub fn add_activiy_node_with_id(
        &mut self,
        activity_node: ActivityNode,
        id: ActivityNodeId,
    ) -> (r: ActivityNodeId)
        requires
            old(self).wf(),
            activity_node.wf(),
            id.0 < usize::MAX,
        ensures
            final(self).wf(),
            r == id,
            final(self).name == old(self).name,
            final(self).mutex_nodes == old(self).mutex_nodes,
            final(self).connections == old(self).connections,
            final(self).next_mutex_id == old(self).next_mutex_id,
            final(self).tick_progress_micros == old(self).tick_progress_micros,
            final(self).ticks_per_second_milli == old(self).ticks_per_second_milli,
            final(self).remaining_ticks_to_run == old(self).remaining_ticks_to_run,
            final(self).activity_nodes@ == if has_act(old(self).activity_nodes@, id) {
                old(self).activity_nodes@.update(
                    act_index_of(old(self).activity_nodes@, id),
                    (ActivityEntry { id, node: activity_node }),
                )
            } else {
                old(self).activity_nodes@.push((ActivityEntry { id, node: activity_node }))
            },
            final(self).next_activity_id.0 == if id.0 + 1 > old(self).next_activity_id.0 {
                id.0 + 1
            } else {
                old(self).next_activity_id.0 as int
            },
    {
        match self.find_activity_index(id) {
            Some(i) => {
                proof {
                    let s = self.activity_nodes@;
                    let w = act_index_of(s, id);
                    assert(0 <= w < s.len() && s[w].id == id);
                    assert(w == i as int);
                }
                self.activity_nodes[i] = ActivityEntry { id, node: activity_node };
            }
            None => {
                self.activity_nodes.push(ActivityEntry { id, node: activity_node });
            }
        }
        if id.0 + 1 > self.next_activity_id.0 {
            self.next_activity_id = ActivityNodeId(id.0 + 1);
        }
        proof {
            let s = final(self).activity_nodes@;
            assert forall|i: int, j: int| 0 <= i < j < s.len() implies s[i].id != s[j].id by {
                let olds = old(self).activity_nodes@;
                if !has_act(olds, id) {
                    if j == s.len() - 1 {
                        assert(olds[i].id != id);
                    }
                }
            }
        }
        id
    }

    /// Insert an activity node under the next free id.
    pub fn add_activity_node(&mut self, activity_node: ActivityNode) -> (r: ActivityNodeId)
        requires
            old(self).wf(),
            activity_node.wf(),
            old(self).next_activity_id.0 < usize::MAX,
        ensures
            final(self).wf(),
            r == old(self).next_activity_id,
            final(self).name == old(self).name,
            final(self).mutex_nodes == old(self).mutex_nodes,
            final(self).connections == old(self).connections,
            final(self).next_mutex_id == old(self).next_mutex_id,
            final(self).tick_progress_micros == old(self).tick_progress_micros,
            final(self).ticks_per_second_milli == old(self).ticks_per_second_milli,
            final(self).remaining_ticks_to_run == old(self).remaining_ticks_to_run,
            final(self).activity_nodes@ == old(self).activity_nodes@.push(
                (ActivityEntry { id: r, node: activity_node }),
            ),
            final(self).next_activity_id.0 == r.0 + 1,
    {
        let id = self.next_activity_id;
        proof {
            assert(!has_act(self.activity_nodes@, id)) by {
                if has_act(self.activity_nodes@, id) {
                    let i = choose|i: int|
                        0 <= i < self.activity_nodes@.len() && self.activity_nodes@[i].id == id;
                    assert(self.activity_nodes@[i].id.0 < id.0);
                }
            }
        }
        self.add_activiy_node_with_id(activity_node, id)
    }

    /// Insert a mutex node under a caller-chosen id, replacing in place or
    /// appending as for activities.
    pub fn add_mutex_node_with_id(&mut self, mutex_node: MutexNode, id: MutexNodeId) -> (r:
        MutexNodeId)
        requires
            old(self).wf(),
            mutex_node.wf(),
            id.0 < usize::MAX,
        ensures
            final(self).wf(),
            r == id,
            final(self).name == old(self).name,
            final(self).activity_nodes == old(self).activity_nodes,
            final(self).connections == old(self).connections,
            final(self).next_activity_id == old(self).next_activity_id,
            final(self).tick_progress_micros == old(self).tick_progress_micros,
            final(self).ticks_per_second_milli == old(self).ticks_per_second_milli,
            final(self).remaining_ticks_to_run == old(self).remaining_ticks_to_run,
            final(self).mutex_nodes@ == if has_mutex(old(self).mutex_nodes@, id) {
                old(self).mutex_nodes@.update(
                    mutex_index_of(old(self).mutex_nodes@, id),
                    (MutexEntry { id, node: mutex_node }),
                )
            } else {
                old(self).mutex_nodes@.push((MutexEntry { id, node: mutex_node }))
            },
            final(self).next_mutex_id.0 == if id.0 + 1 > old(self).next_mutex_id.0 {
                id.0 + 1
            } else {
                old(self).next_mutex_id.0 as int
            },
    {
        match self.find_mutex_index(id) {
            Some(i) => {
                proof {
                    let s = self.mutex_nodes@;
                    let w = mutex_index_of(s, id);
                    assert(0 <= w < s.len() && s[w].id == id);
                    assert(w == i as int);
                }
                self.mutex_nodes[i] = MutexEntry { id, node: mutex_node };
            }
            None => {
                self.mutex_nodes.push(MutexEntry { id, node: mutex_node });
            }
        }
        if id.0 + 1 > self.next_mutex_id.0 {
            self.next_mutex_id = MutexNodeId(id.0 + 1);
        }
        proof {
            let s = final(self).mutex_nodes@;
            assert forall|i: int, j: int| 0 <= i < j < s.len() implies s[i].id != s[j].id by {
                let olds = old(self).mutex_nodes@;
                if !has_mutex(olds, id) {
                    if j == s.len() - 1 {
                        assert(olds[i].id != id);
                    }
                }
            }
        }
        id
    }

    /// Insert a mutex node under the next free id.
    pub fn add_mutex_node(&mut self, mutex_node: MutexNode) -> (r: MutexNodeId)
        requires
            old(self).wf(),
            mutex_node.wf(),
            old(self).next_mutex_id.0 < usize::MAX,
        ensures
            final(self).wf(),
            r == old(self).next_mutex_id,
            final(self).name == old(self).name,
            final(self).activity_nodes == old(self).activity_nodes,
            final(self).connections == old(self).connections,
            final(self).next_activity_id == old(self).next_activity_id,
            final(self).tick_progress_micros == old(self).tick_progress_micros,
            final(self).ticks_per_second_milli == old(self).ticks_per_second_milli,
            final(self).remaining_ticks_to_run == old(self).remaining_ticks_to_run,
            final(self).mutex_nodes@ == old(self).mutex_nodes@.push(
                (MutexEntry { id: r, node: mutex_node }),
            ),
            final(self).next_mutex_id.0 == r.0 + 1,
    {
        let id = self.next_mutex_id;
        proof {
            assert(!has_mutex(self.mutex_nodes@, id)) by {
                if has_mutex(self.mutex_nodes@, id) {
                    let i = choose|i: int|
                        0 <= i < self.mutex_nodes@.len() && self.mutex_nodes@[i].id == id;
                    assert(self.mutex_nodes@[i].id.0 < id.0);
                }
            }
        }
        self.add_mutex_node_with_id(mutex_node, id)
    }

    /// Remove an activity node and every connection record that names
    /// it. Removing an unknown id is a silent no-op answering `false`.
    /// The allocator is not wound back: handles are never reused.
    pub fn remove_activity_node(&mut self, id: ActivityNodeId) -> (r: bool)
        requires
            old(self).wf(),
        ensures
            final(self).wf(),
            r == has_act(old(self).activity_nodes@, id),
            !r ==> *final(self) == *old(self),
            r ==> final(self).activity_nodes@ == old(self).activity_nodes@.remove(
                act_index_of(old(self).activity_nodes@, id),
            ),
            r ==> final(self).connections@ == conns_without_activity(old(self).connections@, id),
            final(self).name == old(self).name,
            final(self).mutex_nodes == old(self).mutex_nodes,
            final(self).next_activity_id == old(self).next_activity_id,
            final(self).next_mutex_id == old(self).next_mutex_id,
            final(self).tick_progress_micros == old(self).tick_progress_micros,
            final(self).ticks_per_second_milli == old(self).ticks_per_second_milli,
            final(self).remaining_ticks_to_run == old(self).remaining_ticks_to_run,
    {
        match self.find_activity_index(id) {
            Some(i) => {
                proof {
                    let w = act_index_of(self.activity_nodes@, id);
                    assert(0 <= w < self.activity_nodes@.len()
                        && self.activity_nodes@[w].id == id);
                    assert(w == i as int);
                }
                self.activity_nodes.remove(i);
                let ghost conns0 = self.connections@;
                let mut kept: Vec<ConnectionEntry> = Vec::new();
                let n = self.connections.len();
                for j in 0..n
                    invariant
                        n == self.connections@.len(),
                        self.connections@ == conns0,
                        kept@ == conns_without_activity(conns0.subrange(0, j as int), id),
                {
                    proof {
                        assert(conns0.subrange(0, j as int + 1).drop_last() =~= conns0.subrange(
                            0,
                            j as int,
                        ));
                        assert(conns0.subrange(0, j as int + 1).last() == conns0[j as int]);
                    }
                    let e = self.connections[j];
                    if e.activity_id.0 != id.0 {
                        kept.push(e);
                    }
                }
                proof {
                    assert(conns0.subrange(0, n as int) =~= conns0);
                }
                self.connections = kept;
                proof {
                    lemma_conns_without_activity(conns0, id);
                    let s = final(self).activity_nodes@;
                    let olds = old(self).activity_nodes@;
                    assert forall|p: int, q: int| 0 <= p < q < s.len() implies (#[trigger] s[p]).id
                        != (#[trigger] s[q]).id by {
                        let p0 = if p < i as int { p } else { p + 1 };
                        let q0 = if q < i as int { q } else { q + 1 };
                        assert(s[p] == olds[p0]);
                        assert(s[q] == olds[q0]);
                    }
                }
                true
            }
            None => false,
        }
    }

    /// Remove a mutex node and every connection record that names it.
    /// Removing an unknown id is a silent no-op answering `false`.
    pub fn remove_mutex_node(&mut self, id: MutexNodeId) -> (r: bool)
        requires
            old(self).wf(),
        ensures
            final(self).wf(),
            r == has_mutex(old(self).mutex_nodes@, id),
            !r ==> *final(self) == *old(self),
            r ==> final(self).mutex_nodes@ == old(self).mutex_nodes@.remove(
                mutex_index_of(old(self).mutex_nodes@, id),
            ),
            r ==> final(self).connections@ == conns_without_mutex(old(self).connections@, id),
            final(self).name == old(self).name,
            final(self).activity_nodes == old(self).activity_nodes,
            final(self).next_activity_id == old(self).next_activity_id,
            final(self).next_mutex_id == old(self).next_mutex_id,
            final(self).tick_progress_micros == old(self).tick_progress_micros,
            final(self).ticks_per_second_milli == old(self).ticks_per_second_milli,
            final(self).remaining_ticks_to_run == old(self).remaining_ticks_to_run,
    {
        match self.find_mutex_index(id) {
            Some(i) => {
                proof {
                    let w = mutex_index_of(self.mutex_nodes@, id);
                    assert(0 <= w < self.mutex_nodes@.len() && self.mutex_nodes@[w].id == id);
                    assert(w == i as int);
                }
                self.mutex_nodes.remove(i);
                let ghost conns0 = self.connections@;
                let mut kept: Vec<ConnectionEntry> = Vec::new();
                let n = self.connections.len();
                for j in 0..n
                    invariant
                        n == self.connections@.len(),
                        self.connections@ == conns0,
                        kept@ == conns_without_mutex(conns0.subrange(0, j as int), id),
                {
                    proof {
                        assert(conns0.subrange(0, j as int + 1).drop_last() =~= conns0.subrange(
                            0,
                            j as int,
                        ));
                        assert(conns0.subrange(0, j as int + 1).last() == conns0[j as int]);
                    }
                    let e = self.connections[j];
                    if e.mutex_id.0 != id.0 {
                        kept.push(e);
                    }
                }
                proof {
                    assert(conns0.subrange(0, n as int) =~= conns0);
                }
                self.connections = kept;
                proof {
                    lemma_conns_without_mutex(conns0, id);
                    let s = final(self).mutex_nodes@;
                    let olds = old(self).mutex_nodes@;
                    assert forall|p: int, q: int| 0 <= p < q < s.len() implies (#[trigger] s[p]).id
                        != (#[trigger] s[q]).id by {
                        let p0 = if p < i as int { p } else { p + 1 };
                        let q0 = if q < i as int { q } else { q + 1 };
                        assert(s[p] == olds[p0]);
                        assert(s[q] == olds[q0]);
                    }
                }
                true
            }
            None => false,
        }
    }
}

/// The connection table with every record of the given activity taken
/// out.
pub open spec fn conns_without_activity(
    s: Seq<ConnectionEntry>,
    id: ActivityNodeId,
) -> Seq<ConnectionEntry>
    decreases s.len(),
{
    if s.len() == 0 {
        Seq::empty()
    } else {
        let rest = conns_without_activity(s.drop_last(), id);
        if s.last().activity_id == id {
            rest
        } else {
            rest.push(s.last())
        }
    }
}

/// The connection table with every record of the given mutex taken out.
pub open spec fn conns_without_mutex(
    s: Seq<ConnectionEntry>,
    id: MutexNodeId,
) -> Seq<ConnectionEntry>
    decreases s.len(),
{
    if s.len() == 0 {
        Seq::empty()
    } else {
        let rest = conns_without_mutex(s.drop_last(), id);
        if s.last().mutex_id == id {
            rest
        } else {
            rest.push(s.last())
        }
    }
}

/// Purging a node's records keeps the table a subsequence: pair
/// uniqueness survives.
pub proof fn lemma_conns_without_activity(s: Seq<ConnectionEntry>, id: ActivityNodeId)
    ensures
        forall|k: int|
            0 <= k < conns_without_activity(s, id).len() ==> s.contains(
                #[trigger] conns_without_activity(s, id)[k],
            ) && conns_without_activity(s, id)[k].activity_id != id,
        conn_pairs_unique(s) ==> conn_pairs_unique(conns_without_activity(s, id)),
    decreases s.len(),
{
    if s.len() > 0 {
        lemma_conns_without_activity(s.drop_last(), id);
        let rest = conns_without_activity(s.drop_last(), id);
        assert(forall|k: int|
            0 <= k < rest.len() ==> s.drop_last().contains(#[trigger] rest[k]));
        assert forall|k: int|
            0 <= k < conns_without_activity(s, id).len() implies s.contains(
            #[trigger] conns_without_activity(s, id)[k],
        ) && conns_without_activity(s, id)[k].activity_id != id by {
            let r = conns_without_activity(s, id);
            if s.last().activity_id == id || k < rest.len() {
                let w = choose|w: int| 0 <= w < s.drop_last().len() && s.drop_last()[w] == r[k];
                assert(s[w] == r[k]);
            } else {
                assert(r[k] == s.last());
                assert(s[s.len() - 1] == s.last());
            }
        }
        if conn_pairs_unique(s) {
            assert(conn_pairs_unique(s.drop_last())) by {
                assert(forall|i: int, j: int|
                    0 <= i < j < s.drop_last().len() ==> s.drop_last()[i] == s[i]
                        && s.drop_last()[j] == s[j]);
            }
            if s.last().activity_id != id {
                let r = conns_without_activity(s, id);
                assert forall|i: int, j: int| 0 <= i < j < r.len() implies !(r[i].activity_id
                    == r[j].activity_id && r[i].mutex_id == r[j].mutex_id) by {
                    if j == r.len() - 1 {
                        assert(r[j] == s.last());
                        assert(r[i] == rest[i]);
                        let w = choose|w: int|
                            0 <= w < s.drop_last().len() && s.drop_last()[w] == rest[i];
                        assert(s[w] == rest[i]);
                        assert(s[s.len() - 1] == s.last());
                    }
                }
            }
        }
    }
}

/// As `lemma_conns_without_activity`, for the mutex-side purge.
pub proof fn lemma_conns_without_mutex(s: Seq<ConnectionEntry>, id: MutexNodeId)
    ensures
        forall|k: int|
            0 <= k < conns_without_mutex(s, id).len() ==> s.contains(
                #[trigger] conns_without_mutex(s, id)[k],
            ) && conns_without_mutex(s, id)[k].mutex_id != id,
        conn_pairs_unique(s) ==> conn_pairs_unique(conns_without_mutex(s, id)),
    decreases s.len(),
{
    if s.len() > 0 {
        lemma_conns_without_mutex(s.drop_last(), id);
        let rest = conns_without_mutex(s.drop_last(), id);
        assert(forall|k: int|
            0 <= k < rest.len() ==> s.drop_last().contains(#[trigger] rest[k]));
        assert forall|k: int|
            0 <= k < conns_without_mutex(s, id).len() implies s.contains(
            #[trigger] conns_without_mutex(s, id)[k],
        ) && conns_without_mutex(s, id)[k].mutex_id != id by {
            let r = conns_without_mutex(s, id);
            if s.last().mutex_id == id || k < rest.len() {
                let w = choose|w: int| 0 <= w < s.drop_last().len() && s.drop_last()[w] == r[k];
                assert(s[w] == r[k]);
            } else {
                assert(r[k] == s.last());
                assert(s[s.len() - 1] == s.last());
            }
        }
        if conn_pairs_unique(s) {
            assert(conn_pairs_unique(s.drop_last())) by {
                assert(forall|i: int, j: int|
                    0 <= i < j < s.drop_last().len() ==> s.drop_last()[i] == s[i]
                        && s.drop_last()[j] == s[j]);
            }
            if s.last().mutex_id != id {
                let r = conns_without_mutex(s, id);
                assert forall|i: int, j: int| 0 <= i < j < r.len() implies !(r[i].activity_id
                    == r[j].activity_id && r[i].mutex_id == r[j].mutex_id) by {
                    if j == r.len() - 1 {
                        assert(r[j] == s.last());
                        assert(r[i] == rest[i]);
                        let w = choose|w: int|
                            0 <= w < s.drop_last().len() && s.drop_last()[w] == rest[i];
                        assert(s[w] == rest[i]);
                        assert(s[s.len() - 1] == s.last());
                    }
                }
            }
        }
    }
}

// Connection table operations.
impl Graph {
    /// What the connection table holds after `connect`. An existing record
    /// for the pair with the other direction is upgraded to `TwoWay` (and,
    /// when updating, the automaton of the newly added direction advances
    /// once); an existing record with the same direction is left alone; a
    /// missing record is appended (ticked once when updating and both
    /// endpoints exist).
    pub open spec fn spec_connect_result(
        self,
        activity_id: ActivityNodeId,
        mutex_id: MutexNodeId,
        direction: Direction,
        update_connections: bool,
    ) -> Seq<ConnectionEntry> {
        let conns = self.connections@;
        let acts = self.activity_nodes@;
        let muts = self.mutex_nodes@;
        let nodes_present = has_act(acts, activity_id) && has_mutex(muts, mutex_id);
        let a = act_node_of(acts, activity_id);
        let m = mutex_node_of(muts, mutex_id);
        if has_conn(conns, activity_id, mutex_id) {
            let i = conn_index_of(conns, activity_id, mutex_id);
            let c = conns[i].connection;
            if c.direction == direction {
                conns
            } else {
                let upgraded = (Connection { direction: Direction::TwoWay, ..c });
                let ticked = if update_connections && nodes_present {
                    match c.direction {
                        Direction::MutexToActivity => (Connection {
                            activity_to_mutex_state: step_activity_to_mutex(
                                upgraded.activity_to_mutex_state,
                                a.remaining_duration,
                            ),
                            ..upgraded
                        }),
                        Direction::ActivityToMutex => (Connection {
                            mutex_to_activity_state: step_mutex_to_activity(
                                upgraded.mutex_to_activity_state,
                                m.value,
                                a.duration == a.remaining_duration,
                            ),
                            ..upgraded
                        }),
                        Direction::TwoWay => upgraded,
                    }
                } else {
                    upgraded
                };
                conns.update(i, (ConnectionEntry { activity_id, mutex_id, connection: ticked }))
            }
        } else {
            let c0 = Connection::spec_new(direction);
            let c1 = if update_connections && nodes_present {
                c0.spec_tick(a, m)
            } else {
                c0
            };
            conns.push((ConnectionEntry { activity_id, mutex_id, connection: c1 }))
        }
    }

    /// Add the given direction between an activity and a mutex. A record
    /// for the pair in the opposite single direction becomes `TwoWay`;
    /// nothing is ever duplicated. With `update_connections`, a newly
    /// reachable automaton advances once so the animation joins the
    /// current tick without a jump.
    pub fn connect(
        &mut self,
        activity_id: ActivityNodeId,
        mutex_id: MutexNodeId,
        direction: Direction,
        update_connections: bool,
    )
        requires
            old(self).wf(),
        ensures
            final(self).wf(),
            final(self).eq_except_connections(*old(self)),
            final(self).connections@ == old(self).spec_connect_result(
                activity_id,
                mutex_id,
                direction,
                update_connections,
            ),
    {
        let act_idx = self.find_activity_index(activity_id);
        let mut_idx = self.find_mutex_index(mutex_id);
        let nodes_present_idx: Option<(usize, usize)> = match (act_idx, mut_idx) {
            (Some(ai), Some(mi)) => Some((ai, mi)),
            _ => None,
        };
        proof {
            if has_act(self.activity_nodes@, activity_id) {
                let w = act_index_of(self.activity_nodes@, activity_id);
                assert(0 <= w < self.activity_nodes@.len()
                    && self.activity_nodes@[w].id == activity_id);
            }
            if has_mutex(self.mutex_nodes@, mutex_id) {
                let w = mutex_index_of(self.mutex_nodes@, mutex_id);
                assert(0 <= w < self.mutex_nodes@.len() && self.mutex_nodes@[w].id == mutex_id);
            }
        }
        match self.find_connection_index(activity_id, mutex_id) {
            Some(i) => {
                proof {
                    let w = conn_index_of(self.connections@, activity_id, mutex_id);
                    assert(0 <= w < self.connections@.len()
                        && self.connections@[w].activity_id == activity_id
                        && self.connections@[w].mutex_id == mutex_id);
                    assert(w == i as int);
                }
                let c = self.connections[i].connection;
                if c.direction != direction {
                    let mut c2 = c;
                    c2.direction = Direction::TwoWay;
                    if update_connections {
                        if let Some((ai, mi)) = nodes_present_idx {
                            match c.direction {
                                Direction::MutexToActivity => {
                                    c2.tick_activity_to_mutex(&self.activity_nodes[ai].node);
                                }
                                Direction::ActivityToMutex => {
                                    c2.tick_mutex_to_activity(
                                        &self.activity_nodes[ai].node,
                                        &self.mutex_nodes[mi].node,
                                    );
                                }
                                Direction::TwoWay => {}
                            }
                        }
                    }
                    self.connections[i] = ConnectionEntry { activity_id, mutex_id, connection: c2 };
                }
            }
            None => {
                let mut c = Connection::new(direction);
                if update_connections {
                    if let Some((ai, mi)) = nodes_present_idx {
                        c.tick(&self.activity_nodes[ai].node, &self.mutex_nodes[mi].node);
                    }
                }
                self.connections.push(ConnectionEntry { activity_id, mutex_id, connection: c });
            }
        }
        proof {
            let s = final(self).connections@;
            let olds = old(self).connections@;
            assert forall|i: int, j: int| 0 <= i < j < s.len() implies !(s[i].activity_id
                == s[j].activity_id && s[i].mutex_id == s[j].mutex_id) by {
                if !has_conn(olds, activity_id, mutex_id) {
                    if j == s.len() - 1 {
                        assert(!(olds[i].activity_id == activity_id && olds[i].mutex_id
                            == mutex_id));
                    }
                }
            }
        }
    }

    /// What the connection table holds after `disconnect`: the named
    /// direction is taken out of the pair's record, reverting `TwoWay` to
    /// the remaining single direction and removing the record entirely
    /// when nothing remains.
    pub open spec fn spec_disconnect_result(
        self,
        activity_id: ActivityNodeId,
        mutex_id: MutexNodeId,
        direction: Direction,
    ) -> Seq<ConnectionEntry> {
        let conns = self.connections@;
        if has_conn(conns, activity_id, mutex_id) {
            let i = conn_index_of(conns, activity_id, mutex_id);
            let c = conns[i].connection;
            let kept: Option<Direction> = match (c.direction, direction) {
                (Direction::MutexToActivity, Direction::ActivityToMutex) => Some(
                    Direction::MutexToActivity,
                ),
                (Direction::ActivityToMutex, Direction::MutexToActivity) => Some(
                    Direction::ActivityToMutex,
                ),
                (Direction::TwoWay, Direction::MutexToActivity) => Some(
                    Direction::ActivityToMutex,
                ),
                (Direction::TwoWay, Direction::ActivityToMutex) => Some(
                    Direction::MutexToActivity,
                ),
                _ => None,
            };
            match kept {
                Some(d) => conns.update(
                    i,
                    (ConnectionEntry {
                        activity_id,
                        mutex_id,
                        connection: (Connection { direction: d, ..c }),
                    }),
                ),
                None => conns.remove(i),
            }
        } else {
            conns
        }
    }

    /// Take the given direction out of the pair's record, if any.
    pub fn disconnect(
        &mut self,
        activity_id: ActivityNodeId,
        mutex_id: MutexNodeId,
        direction: Direction,
    )
        requires
            old(self).wf(),
        ensures
            final(self).wf(),
            final(self).eq_except_connections(*old(self)),
            final(self).connections@ == old(self).spec_disconnect_result(
                activity_id,
                mutex_id,
                direction,
            ),
    {
        match self.find_connection_index(activity_id, mutex_id) {
            Some(i) => {
                proof {
                    let w = conn_index_of(self.connections@, activity_id, mutex_id);
                    assert(0 <= w < self.connections@.len()
                        && self.connections@[w].activity_id == activity_id
                        && self.connections@[w].mutex_id == mutex_id);
                    assert(w == i as int);
                }
                let c = self.connections[i].connection;
                let kept: Option<Direction> = match (c.direction, direction) {
                    (Direction::MutexToActivity, Direction::ActivityToMutex) => Some(
                        Direction::MutexToActivity,
                    ),
                    (Direction::ActivityToMutex, Direction::MutexToActivity) => Some(
                        Direction::ActivityToMutex,
                    ),
                    (Direction::TwoWay, Direction::MutexToActivity) => Some(
                        Direction::ActivityToMutex,
                    ),
                    (Direction::TwoWay, Direction::ActivityToMutex) => Some(
                        Direction::MutexToActivity,
                    ),
                    _ => None,
                };
                match kept {
                    Some(d) => {
                        let mut c2 = c;
                        c2.direction = d;
                        self.connections[i] = ConnectionEntry {
                            activity_id,
                            mutex_id,
                            connection: c2,
                        };
                        proof {
                            let s = final(self).connections@;
                            assert forall|p: int, q: int| 0 <= p < q < s.len() implies !(
                                s[p].activity_id == s[q].activity_id && s[p].mutex_id
                                == s[q].mutex_id) by {
                                let olds = old(self).connections@;
                                assert(olds[p].activity_id == s[p].activity_id && olds[p].mutex_id
                                    == s[p].mutex_id);
                                assert(olds[q].activity_id == s[q].activity_id && olds[q].mutex_id
                                    == s[q].mutex_id);
                            }
                        }
                    }
                    None => {
                        self.connections.remove(i);
                        proof {
                            let s = final(self).connections@;
                            let olds = old(self).connections@;
                            assert forall|p: int, q: int| 0 <= p < q < s.len() implies !(
                                s[p].activity_id == s[q].activity_id && s[p].mutex_id
                                == s[q].mutex_id) by {
                                let p0 = if p < i as int { p } else { p + 1 };
                                let q0 = if q < i as int { q } else { q + 1 };
                                assert(s[p] == olds[p0]);
                                assert(s[q] == olds[q0]);
                            }
                        }
                    }
                }
            }
            None => {}
        }
    }

    /// Whether the pair is connected in the given direction (a `TwoWay`
    /// record counts for either direction).
    pub open spec fn spec_is_connected(
        self,
        activity_id: ActivityNodeId,
        mutex_id: MutexNodeId,
        direction: Direction,
    ) -> bool {
        let conns = self.connections@;
        has_conn(conns, activity_id, mutex_id) && {
            let c = conns[conn_index_of(conns, activity_id, mutex_id)].connection;
            c.direction == direction || c.direction == Direction::TwoWay
        }
    }

    /// Whether the pair is connected in the given direction. Unknown ids
    /// simply answer `false`; they are not an error.
    pub fn is_connected(
        &self,
        activity_id: ActivityNodeId,
        mutex_id: MutexNodeId,
        direction: Direction,
    ) -> (r: bool)
        requires
            self.wf(),
        ensures
            r == self.spec_is_connected(activity_id, mutex_id, direction),
    {
        match self.find_connection_index(activity_id, mutex_id) {
            Some(i) => {
                proof {
                    let w = conn_index_of(self.connections@, activity_id, mutex_id);
                    assert(0 <= w < self.connections@.len()
                        && self.connections@[w].activity_id == activity_id
                        && self.connections@[w].mutex_id == mutex_id);
                    assert(w == i as int);
                }
                let c = self.connections[i].connection;
                c.direction == direction || c.direction == Direction::TwoWay
            }
            None => false,
        }
    }

    /// Whether the table holds an input record (mutex feeds activity) for
    /// the pair.
    pub fn has_input_connection(&self, activity_id: ActivityNodeId, mutex_id: MutexNodeId) -> (r:
        bool)
        ensures
            r == has_input_conn(self.connections@, activity_id, mutex_id),
    {
        let n = self.connections.len();
        for j in 0..n
            invariant
                n == self.connections@.len(),
                forall|j2: int|
                    0 <= j2 < j ==> !((#[trigger] self.connections@[j2]).activity_id == activity_id
                        && self.connections@[j2].mutex_id == mutex_id
                        && self.connections@[j2].connection.direction
                        != Direction::ActivityToMutex),
        {
            let e = &self.connections[j];
            if e.activity_id.0 == activity_id.0 && e.mutex_id.0 == mutex_id.0
                && e.connection.direction != Direction::ActivityToMutex {
                return true;
            }
        }
        false
    }

    /// Whether the table holds an output record (activity feeds mutex) for
    /// the pair.
    pub fn has_output_connection(&self, activity_id: ActivityNodeId, mutex_id: MutexNodeId) -> (r:
        bool)
        ensures
            r == has_output_conn(self.connections@, activity_id, mutex_id),
    {
        let n = self.connections.len();
        for j in 0..n
            invariant
                n == self.connections@.len(),
                forall|j2: int|
                    0 <= j2 < j ==> !((#[trigger] self.connections@[j2]).activity_id == activity_id
                        && self.connections@[j2].mutex_id == mutex_id
                        && self.connections@[j2].connection.direction
                        != Direction::MutexToActivity),
        {
            let e = &self.connections[j];
            if e.activity_id.0 == activity_id.0 && e.mutex_id.0 == mutex_id.0
                && e.connection.direction != Direction::MutexToActivity {
                return true;
            }
        }
        false
    }

    /// Whether the activity could start right now: every input-connected,
    /// present mutex holds a token.
    pub fn activity_ready(&self, activity_id: ActivityNodeId) -> (r: bool)
        requires
            self.wf_nodes(),
        ensures
            r == spec_ready(self.mutex_nodes@, self.connections@, activity_id),
    {
        let n = self.connections.len();
        for j in 0..n
            invariant
                self.wf_nodes(),
                n == self.connections@.len(),
                forall|j2: int|
                    0 <= j2 < j && (#[trigger] self.connections@[j2]).activity_id == activity_id
                        && self.connections@[j2].connection.direction
                        != Direction::ActivityToMutex
                        && has_mutex(self.mutex_nodes@, self.connections@[j2].mutex_id)
                        ==> mutex_node_of(self.mutex_nodes@, self.connections@[j2].mutex_id).value
                        > 0,
        {
            let e = &self.connections[j];
            if e.activity_id.0 == activity_id.0
                && e.connection.direction != Direction::ActivityToMutex {
                let mid = e.mutex_id;
                match self.find_mutex_index(mid) {
                    Some(mi) => {
                        proof {
                            let w = mutex_index_of(self.mutex_nodes@, mid);
                            assert(0 <= w < self.mutex_nodes@.len()
                                && self.mutex_nodes@[w].id == mid);
                            assert(w == mi as int);
                        }
                        if self.mutex_nodes[mi].node.value == 0 {
                            return false;
                        }
                    }
                    None => {}
                }
            }
        }
        true
    }

    /// Disconnect the given direction when it is present, connect it (with
    /// automaton updates) when it is not.
    pub fn toggle_connection(
        &mut self,
        activity_id: ActivityNodeId,
        mutex_id: MutexNodeId,
        direction: Direction,
    )
        requires
            old(self).wf(),
        ensures
            final(self).wf(),
            final(self).eq_except_connections(*old(self)),
            final(self).connections@ == if old(self).spec_is_connected(
                activity_id,
                mutex_id,
                direction,
            ) {
                old(self).spec_disconnect_result(activity_id, mutex_id, direction)
            } else {
                old(self).spec_connect_result(activity_id, mutex_id, direction, true)
            },
    {
        if self.is_connected(activity_id, mutex_id, direction) {
            self.disconnect(activity_id, mutex_id, direction);
        } else {
            self.connect(activity_id, mutex_id, direction, true);
        }
    }
}

// Simulation phases.
impl Graph {
    /// What one pass of the connection-state update leaves in the table:
    /// every record whose two endpoints exist advances its automata once;
    /// records with a missing endpoint are untouched.
    pub open spec fn spec_update_connection_states(self) -> Seq<ConnectionEntry> {
        Seq::new(
            self.connections@.len(),
            |j: int|
                {
                    let e = self.connections@[j];
                    if has_act(self.activity_nodes@, e.activity_id) && has_mutex(
                        self.mutex_nodes@,
                        e.mutex_id,
                    ) {
                        (ConnectionEntry {
                            connection: e.connection.spec_tick(
                                act_node_of(self.activity_nodes@, e.activity_id),
                                mutex_node_of(self.mutex_nodes@, e.mutex_id),
                            ),
                            ..e
                        })
                    } else {
                        e
                    }
                },
        )
    }

    /// Advance every connection's automata once against the current node
    /// values. Nodes are never changed by this pass.
    pub fn update_connection_states(&mut self)
        requires
            old(self).wf_nodes(),
        ensures
            final(self).wf_nodes(),
            final(self).eq_except_connections(*old(self)),
            final(self).connections@ == old(self).spec_update_connection_states(),
    {
        let ghost target = self.spec_update_connection_states();
        let n = self.connections.len();
        for j in 0..n
            invariant
                self.wf_nodes(),
                n == self.connections@.len(),
                old(self).connections@.len() == n,
                self.eq_except_connections(*old(self)),
                target == old(self).spec_update_connection_states(),
                target.len() == n,
                self.activity_nodes@ == old(self).activity_nodes@,
                self.mutex_nodes@ == old(self).mutex_nodes@,
                forall|j2: int| 0 <= j2 < j ==> self.connections@[j2] == target[j2],
                forall|j2: int|
                    j <= j2 < n ==> self.connections@[j2] == old(self).connections@[j2],
        {
            let aid = self.connections[j].activity_id;
            let mid = self.connections[j].mutex_id;
            match (self.find_activity_index(aid), self.find_mutex_index(mid)) {
                (Some(ai), Some(mi)) => {
                    proof {
                        let wa = act_index_of(self.activity_nodes@, aid);
                        assert(0 <= wa < self.activity_nodes@.len()
                            && self.activity_nodes@[wa].id == aid);
                        assert(wa == ai as int);
                        let wm = mutex_index_of(self.mutex_nodes@, mid);
                        assert(0 <= wm < self.mutex_nodes@.len()
                            && self.mutex_nodes@[wm].id == mid);
                        assert(wm == mi as int);
                    }
                    let mut c = self.connections[j].connection;
                    c.tick(&self.activity_nodes[ai].node, &self.mutex_nodes[mi].node);
                    self.connections[j] = ConnectionEntry {
                        activity_id: aid,
                        mutex_id: mid,
                        connection: c,
                    };
                }
                _ => {}
            }
            proof {
                assert(self.connections@[j as int] == target[j as int]);
                assert forall|t: int|
                    0 <= t < n implies (#[trigger] self.connections@[t]).activity_id == old(
                    self,
                ).connections@[t].activity_id && self.connections@[t].mutex_id == old(
                    self,
                ).connections@[t].mutex_id by {
                    if t < j + 1 {
                        assert(self.connections@[t] == target[t]);
                    } else {
                        assert(self.connections@[t] == old(self).connections@[t]);
                    }
                }
            }
        }
        proof {
            assert(self.connections@ =~= target);
        }
    }

    /// Settlement, phase B of a tick: every running activity loses one
    /// tick of remaining duration; an activity that thereby completes
    /// (reaches zero) produces one token on every output-connected,
    /// present mutex. Token increments saturate instead of overflowing.
    pub fn tick_b(&mut self)
        requires
            old(self).wf_nodes(),
        ensures
            final(self).wf_nodes(),
            tick_b_rel(*old(self), *final(self)),
    {
        let ghost acts0 = self.activity_nodes@;
        let ghost muts0 = self.mutex_nodes@;
        let ghost conns0 = self.connections@;
        let n = self.activity_nodes.len();
        for i in 0..n
            invariant
                self.wf_nodes(),
                n == self.activity_nodes@.len(),
                acts0.len() == n,
                muts0.len() == self.mutex_nodes@.len(),
                self.eq_except_nodes_and_connections(*old(self)),
                self.connections@ == conns0,
                acts0 == old(self).activity_nodes@,
                muts0 == old(self).mutex_nodes@,
                conns0 == old(self).connections@,
                settle_seq(acts0, muts0, conns0, 0) == settle_seq(
                    self.activity_nodes@,
                    self.mutex_nodes@,
                    conns0,
                    i as int,
                ),
                forall|i2: int|
                    i <= i2 < n ==> self.activity_nodes@[i2] == acts0[i2],
        {
            let ghost acts_pre = self.activity_nodes@;
            let ghost muts_pre = self.mutex_nodes@;
            let rem = self.activity_nodes[i].node.remaining_duration;
            if rem > 0 {
                let id = self.activity_nodes[i].id;
                let rem2 = rem - 1;
                let e = &mut self.activity_nodes[i];
                e.node.remaining_duration = rem2;
                if rem == 1 {
                    let ghost muts_snap = self.mutex_nodes@;
                    let ghost acts_mid = self.activity_nodes@;
                    let m = self.mutex_nodes.len();
                    for k in 0..m
                        invariant
                            m == self.mutex_nodes@.len(),
                            muts_snap.len() == m,
                            self.connections@ == conns0,
                            self.activity_nodes@ == acts_mid,
                            self.eq_except_nodes_and_connections(*old(self)),
                            forall|k2: int|
                                0 <= k2 < k ==> self.mutex_nodes@[k2] == produce_outputs(
                                    muts_snap,
                                    conns0,
                                    id,
                                )[k2],
                            forall|k2: int|
                                k <= k2 < m ==> self.mutex_nodes@[k2] == muts_snap[k2],
                    {
                        let mid = self.mutex_nodes[k].id;
                        if self.has_output_connection(id, mid) {
                            let mut me = self.mutex_nodes[k];
                            me.node.value = if me.node.value < u32::MAX {
                                me.node.value + 1
                            } else {
                                me.node.value
                            };
                            self.mutex_nodes[k] = me;
                        }
                    }
                    proof {
                        assert(self.mutex_nodes@ =~= produce_outputs(muts_snap, conns0, id));
                    }
                }
                proof {
                    let s = settle_step(acts_pre, muts_pre, conns0, i as int);
                    assert(self.activity_nodes@ =~= s.0);
                    assert(self.mutex_nodes@ =~= s.1);
                }
            }
            proof {
                assert(settle_seq(self.activity_nodes@, self.mutex_nodes@, conns0, i + 1)
                    == settle_seq(acts_pre, muts_pre, conns0, i as int));
                assert forall|i2: int, j2: int|
                    0 <= i2 < j2 < self.activity_nodes@.len() implies (
                #[trigger] self.activity_nodes@[i2]).id != (
                #[trigger] self.activity_nodes@[j2]).id by {
                    assert(self.activity_nodes@[i2].id == acts_pre[i2].id);
                    assert(self.activity_nodes@[j2].id == acts_pre[j2].id);
                }
            }
        }
    }

    /// Whether the activity at index `a` ranks before the one at index
    /// `b` in this pass's contention order.
    fn precedes_at(&self, seed: u64, a: usize, b: usize) -> (r: bool)
        requires
            a < self.activity_nodes@.len(),
            b < self.activity_nodes@.len(),
        ensures
            r == entry_precedes(
                seed,
                self.activity_nodes@[a as int],
                self.activity_nodes@[b as int],
            ),
    {
        let pa = self.activity_nodes[a].node.priority;
        let pb = self.activity_nodes[b].node.priority;
        if pa > pb {
            true
        } else if pa < pb {
            false
        } else {
            let ia = self.activity_nodes[a].id.0;
            let ib = self.activity_nodes[b].id.0;
            if seed % 2 == 0 {
                ia > ib
            } else {
                ia < ib
            }
        }
    }

    /// The contention order of this pass: the activity indices sorted by
    /// descending priority, ties broken by the seed.
    fn admission_order(&self, seed: u64) -> (order: Vec<usize>)
        requires
            self.wf_nodes(),
        ensures
            is_admission_order(order@, self.activity_nodes@, seed),
    {
        let ghost acts = self.activity_nodes@;
        let n = self.activity_nodes.len();
        let mut order: Vec<usize> = Vec::new();
        for idx in 0..n
            invariant
                self.wf_nodes(),
                n == acts.len(),
                acts == self.activity_nodes@,
                order@.len() == idx,
                forall|i: int| 0 <= i < order@.len() ==> (#[trigger] order@[i]) < idx,
                forall|i: int, j: int| 0 <= i < j < order@.len() ==> order@[i] != order@[j],
                forall|i: int, j: int|
                    0 <= i < j < order@.len() ==> entry_precedes(
                        seed,
                        acts[order@[i] as int],
                        acts[order@[j] as int],
                    ),
        {
            let mut p: usize = 0;
            while p < order.len() && self.precedes_at(seed, order[p], idx)
                invariant
                    self.wf_nodes(),
                    acts == self.activity_nodes@,
                    idx < n == acts.len(),
                    order@.len() == idx,
                    p <= order@.len(),
                    forall|i: int| 0 <= i < order@.len() ==> (#[trigger] order@[i]) < idx,
                    forall|q: int|
                        0 <= q < p ==> entry_precedes(
                            seed,
                            acts[(#[trigger] order@[q]) as int],
                            acts[idx as int],
                        ),
                decreases order@.len() - p,
            {
                p += 1;
            }
            let ghost order_pre = order@;
            order.insert(p, idx);
            proof {
                let o = order@;
                assert(o == order_pre.insert(p as int, idx));
                assert forall|i: int, j: int| 0 <= i < j < o.len() implies entry_precedes(
                    seed,
                    acts[(#[trigger] o[i]) as int],
                    acts[(#[trigger] o[j]) as int],
                ) by {
                    let pi = p as int;
                    if j < pi {
                        assert(o[i] == order_pre[i] && o[j] == order_pre[j]);
                    } else if j == pi {
                        assert(o[j] == idx && o[i] == order_pre[i]);
                    } else {
                        // j > pi
                        if i < pi {
                            assert(o[i] == order_pre[i] && o[j] == order_pre[j - 1]);
                            if i == j - 1 {
                                // impossible: i < pi <= j - 1 = i
                                assert(false);
                            }
                        } else if i == pi {
                            assert(o[i] == idx && o[j] == order_pre[j - 1]);
                            // the loop stopped at p, so the entry there does
                            // not precede idx; by totality idx precedes it
                            assert(pi < order_pre.len());
                            assert(!entry_precedes(
                                seed,
                                acts[order_pre[pi] as int],
                                acts[idx as int],
                            ));
                            assert(acts[order_pre[pi] as int].id != acts[idx as int].id);
                            lemma_entry_precedes_total(
                                seed,
                                acts[order_pre[pi] as int],
                                acts[idx as int],
                            );
                            if j - 1 > pi {
                                lemma_entry_precedes_trans(
                                    seed,
                                    acts[idx as int],
                                    acts[order_pre[pi] as int],
                                    acts[order_pre[j - 1] as int],
                                );
                            }
                        } else {
                            assert(o[i] == order_pre[i - 1] && o[j] == order_pre[j - 1]);
                        }
                    }
                }
            }
        }
        order
    }

    /// Admission, phase A of a tick, for a given tie-break seed: every
    /// idle activity is considered in contention order (highest priority
    /// first, ties broken deterministically by the seed); a considered
    /// activity starts iff its duration is positive and every
    /// input-connected, present mutex holds a token, and starting
    /// consumes one token from each of those mutexes before any
    /// lower-ranked activity is considered. An activity with duration
    /// zero is never admitted. Nothing else of the graph changes.
    pub fn tick_a_with_seed(&mut self, seed: u64)
        requires
            old(self).wf_nodes(),
        ensures
            final(self).wf_nodes(),
            tick_a_rel(*old(self), *final(self), seed),
            admission_frame(old(self).activity_nodes@, final(self).activity_nodes@),
            muts_frame_dec(old(self).mutex_nodes@, final(self).mutex_nodes@),
    {
        let ghost acts0 = self.activity_nodes@;
        let ghost muts0 = self.mutex_nodes@;
        let ghost conns0 = self.connections@;
        let order = self.admission_order(seed);
        proof {
            assert(order@.skip(0) =~= order@);
        }
        let n = order.len();
        for oi in 0..n
            invariant
                self.wf_nodes(),
                n == order@.len(),
                is_admission_order(order@, acts0, seed),
                acts0 == old(self).activity_nodes@,
                muts0 == old(self).mutex_nodes@,
                conns0 == old(self).connections@,
                acts0.len() == n,
                self.activity_nodes@.len() == n,
                self.mutex_nodes@.len() == muts0.len(),
                self.eq_except_nodes_and_connections(*old(self)),
                self.connections@ == conns0,
                admission_frame(acts0, self.activity_nodes@),
                muts_frame_dec(muts0, self.mutex_nodes@),
                admit_seq(acts0, muts0, conns0, order@) == admit_seq(
                    self.activity_nodes@,
                    self.mutex_nodes@,
                    conns0,
                    order@.skip(oi as int),
                ),
        {
            let ghost acts_pre = self.activity_nodes@;
            let ghost muts_pre = self.mutex_nodes@;
            let idx = order[oi];
            let rem = self.activity_nodes[idx].node.remaining_duration;
            let dur = self.activity_nodes[idx].node.duration;
            let id = self.activity_nodes[idx].id;
            if rem == 0 && dur >= 1 {
                let ready = self.activity_ready(id);
                if ready {
                    let e = &mut self.activity_nodes[idx];
                    e.node.remaining_duration = dur;
                    let ghost muts_snap = self.mutex_nodes@;
                    let ghost acts_mid = self.activity_nodes@;
                    let m = self.mutex_nodes.len();
                    for k in 0..m
                        invariant
                            m == self.mutex_nodes@.len(),
                            muts_snap.len() == m,
                            muts_snap == muts_pre,
                            self.connections@ == conns0,
                            self.activity_nodes@ == acts_mid,
                            self.eq_except_nodes_and_connections(*old(self)),
                            mutex_ids_unique(muts_snap),
                            spec_ready(muts_snap, conns0, id),
                            forall|k2: int|
                                0 <= k2 < k ==> self.mutex_nodes@[k2] == consume_inputs(
                                    muts_snap,
                                    conns0,
                                    id,
                                )[k2],
                            forall|k2: int|
                                k <= k2 < m ==> self.mutex_nodes@[k2] == muts_snap[k2],
                    {
                        let mid = self.mutex_nodes[k].id;
                        if self.has_input_connection(id, mid) {
                            proof {
                                let j = choose|j: int|
                                    0 <= j < conns0.len() && (#[trigger] conns0[j]).activity_id
                                        == id && conns0[j].mutex_id == mid
                                        && conns0[j].connection.direction
                                        != Direction::ActivityToMutex;
                                assert(muts_snap[k as int].id == mid);
                                assert(has_mutex(muts_snap, mid));
                                let w = mutex_index_of(muts_snap, mid);
                                assert(0 <= w < muts_snap.len() && muts_snap[w].id == mid);
                                assert(w == k as int) by {
                                    if w < k as int {
                                        assert(muts_snap[w].id != muts_snap[k as int].id);
                                    } else if w > k as int {
                                        assert(muts_snap[k as int].id != muts_snap[w].id);
                                    }
                                }
                                assert(mutex_node_of(muts_snap, mid).value > 0);
                            }
                            let mut me = self.mutex_nodes[k];
                            me.node.value = me.node.value - 1;
                            self.mutex_nodes[k] = me;
                        }
                    }
                    proof {
                        assert(self.mutex_nodes@ =~= consume_inputs(muts_snap, conns0, id));
                    }
                }
            }
            proof {
                let idxi = idx as int;
                assert(acts_pre[idxi].id == id);
                let s = admit_at(acts_pre, muts_pre, conns0, idxi);
                if rem == 0 && dur >= 1 && spec_ready(muts_pre, conns0, id) {
                    assert(self.activity_nodes@ =~= s.0);
                    assert(self.mutex_nodes@ =~= s.1);
                } else {
                    assert(self.activity_nodes@ == s.0);
                    assert(self.mutex_nodes@ == s.1);
                }
                // one unfolding of the admission fold
                let suffix = order@.skip(oi as int);
                assert(suffix.len() > 0 && suffix[0] == order@[oi as int]);
                assert(suffix.drop_first() =~= order@.skip(oi as int + 1));
                assert(admit_seq(acts_pre, muts_pre, conns0, suffix) == admit_seq(
                    self.activity_nodes@,
                    self.mutex_nodes@,
                    conns0,
                    order@.skip(oi as int + 1),
                ));
                // identities survive, so uniqueness and the id bound survive
                assert forall|i2: int, j2: int|
                    0 <= i2 < j2 < self.activity_nodes@.len() implies (
                #[trigger] self.activity_nodes@[i2]).id != (
                #[trigger] self.activity_nodes@[j2]).id by {
                    assert(self.activity_nodes@[i2].id == acts0[i2].id);
                    assert(self.activity_nodes@[j2].id == acts0[j2].id);
                }
            }
        }
        proof {
            assert(order@.skip(n as int) =~= Seq::<usize>::empty());
            assert((self.activity_nodes@, self.mutex_nodes@) == admit_seq(
                acts0,
                muts0,
                conns0,
                order@,
            ));
        }
    }

    /// Admission with a fresh seed: what holds of the result holds for
    /// every seed, since the seed only shuffles equal-priority ties.
    pub fn tick_a(&mut self)
        requires
            old(self).wf_nodes(),
        ensures
            final(self).wf_nodes(),
            exists|seed: u64| tick_a_rel(*old(self), *final(self), seed),
            admission_frame(old(self).activity_nodes@, final(self).activity_nodes@),
            muts_frame_dec(old(self).mutex_nodes@, final(self).mutex_nodes@),
    {
        let seed = crate::rng::draw_seed();
        self.tick_a_with_seed(seed);
    }
}

/// The graph with elapsed time folded into its tick progress: progress
/// grows by `dt` seconds (in millionths) times the rate (in thousandths
/// of a tick per second), saturating at the top of `u64`.
pub open spec fn spec_advanced(g: Graph, dt_micros: u64) -> Graph {
    let delta = (dt_micros as int) * (g.ticks_per_second_milli as int) / 1000;
    let np = if g.tick_progress_micros + delta > u64::MAX {
        u64::MAX as int
    } else {
        g.tick_progress_micros + delta
    };
    Graph { tick_progress_micros: np as u64, ..g }
}

/// The scheduler's bookkeeping after a settlement fired: one full tick
/// is taken off the progress, a positive run budget is decremented, and
/// a budget that just ran out clamps the progress to exactly zero.
pub open spec fn spec_retire(g: Graph) -> Graph {
    let p = (g.tick_progress_micros - TICK_FULL_MICROS) as u64;
    if g.remaining_ticks_to_run > 0 {
        if g.remaining_ticks_to_run == 1 {
            Graph { tick_progress_micros: 0u64, remaining_ticks_to_run: 0i32, ..g }
        } else {
            Graph {
                tick_progress_micros: p,
                remaining_ticks_to_run: (g.remaining_ticks_to_run - 1) as i32,
                ..g
            }
        }
    } else {
        Graph { tick_progress_micros: p, ..g }
    }
}

/// The scheduler's firing discipline, mirrored as a relation. From state
/// `g` with the previous progress mark `prev`: admission fires once when
/// progress crossed the half-tick threshold since `prev`; then, if a
/// whole tick has accumulated, settlement fires, the tick is retired and
/// the discipline repeats with the mark reset — otherwise the state is
/// final. `fuel` bounds the number of settlements; any sufficiently
/// large fuel describes the same outcome.
pub open spec fn sched_rel(g: Graph, prev: u64, post: Graph, fuel: nat) -> bool
    decreases fuel, 1int,
{
    let fire_a = prev < TICK_HALF_MICROS && g.tick_progress_micros >= TICK_HALF_MICROS;
    if fire_a {
        exists|g1: Graph| #[trigger] phase_a_fired(g, g1) && sched_after_a(g1, post, fuel)
    } else {
        sched_after_a(g, post, fuel)
    }
}

/// The scheduler's discipline after the admission decision of the
/// current iteration: settle and repeat while a whole tick has
/// accumulated, stop otherwise.
pub open spec fn sched_after_a(g1: Graph, post: Graph, fuel: nat) -> bool
    decreases fuel, 0int,
{
    if g1.tick_progress_micros >= TICK_FULL_MICROS {
        fuel > 0 && exists|g2: Graph|
            #[trigger] phase_b_fired(g1, g2) && sched_rel(
                spec_retire(g2),
                0,
                post,
                (fuel - 1) as nat,
            )
    } else {
        post == g1
    }
}

// The tick scheduler and its controls.
impl Graph {
    /// Fold `dt_micros` microseconds of elapsed time into the scheduler.
    /// A paused graph (run budget zero) does not move at all. Otherwise
    /// progress advances at the configured rate and the two phases fire
    /// as their thresholds are crossed — several whole ticks when the
    /// elapsed time calls for it — leaving the progress inside one tick
    /// again.
    pub fn tick(&mut self, dt_micros: u64)
        requires
            old(self).wf(),
        ensures
            final(self).wf(),
            old(self).remaining_ticks_to_run == 0 ==> *final(self) == *old(self),
            old(self).remaining_ticks_to_run != 0 ==> exists|fuel: nat|
                sched_rel(
                    spec_advanced(*old(self), dt_micros),
                    old(self).tick_progress_micros,
                    *final(self),
                    fuel,
                ),
    {
        if self.remaining_ticks_to_run == 0 {
            return ;
        }
        let mut prev = self.tick_progress_micros;
        let ghost prev0 = prev;
        proof {
            assert((dt_micros as int) * (self.ticks_per_second_milli as int) <= (u64::MAX as int)
                * (u32::MAX as int)) by (nonlinear_arith)
                requires
                    dt_micros <= u64::MAX,
                    self.ticks_per_second_milli <= u32::MAX,
            ;
        }
        let prod: u128 = (dt_micros as u128) * (self.ticks_per_second_milli as u128);
        let delta: u128 = prod / 1000;
        let sum: u128 = (self.tick_progress_micros as u128) + delta;
        let np: u64 = if sum > (u64::MAX as u128) {
            u64::MAX
        } else {
            sum as u64
        };
        self.tick_progress_micros = np;
        let ghost g_start = *self;
        proof {
            assert(g_start == spec_advanced(*old(self), dt_micros));
        }
        let ghost mut cycles: nat = 0nat;
        loop
            invariant_except_break
                self.wf_nodes(),
                forall|post: Graph, f: nat|
                    #[trigger] sched_rel(*self, prev, post, f) ==> sched_rel(
                        g_start,
                        prev0,
                        post,
                        f + cycles,
                    ),
            ensures
                self.wf_nodes(),
                self.tick_progress_micros < TICK_FULL_MICROS,
                exists|f: nat| sched_rel(g_start, prev0, *self, f),
            decreases self.tick_progress_micros,
        {
            let ghost g_h = *self;
            let ghost prev_h = prev;
            let ghost cycles_h = cycles;
            let ghost fire_a = prev < TICK_HALF_MICROS && self.tick_progress_micros
                >= TICK_HALF_MICROS;
            if prev < TICK_HALF_MICROS && self.tick_progress_micros >= TICK_HALF_MICROS {
                self.tick_a();
                let ghost mid = *self;
                self.update_connection_states();
                proof {
                    assert(phase_a_fired(g_h, *self)) by {
                        let seed = choose|seed: u64| tick_a_rel(g_h, mid, seed);
                        assert(tick_a_rel(g_h, mid, seed) && conns_updated(mid, *self));
                    }
                }
            }
            let ghost g1 = *self;
            proof {
                if fire_a {
                    assert(phase_a_fired(g_h, g1));
                } else {
                    assert(g1 == g_h);
                }
                assert(g1.tick_progress_micros == g_h.tick_progress_micros);
            }
            if self.tick_progress_micros >= TICK_FULL_MICROS {
                self.tick_b();
                let ghost midb = *self;
                self.update_connection_states();
                let ghost g2 = *self;
                proof {
                    assert(phase_b_fired(g1, g2)) by {
                        assert(tick_b_rel(g1, midb) && conns_updated(midb, g2));
                    }
                }
                self.tick_progress_micros = self.tick_progress_micros - TICK_FULL_MICROS;
                if self.remaining_ticks_to_run > 0 {
                    self.remaining_ticks_to_run = self.remaining_ticks_to_run - 1;
                    if self.remaining_ticks_to_run == 0 {
                        self.tick_progress_micros = 0;
                    }
                }
                prev = 0;
                proof {
                    assert(*self == spec_retire(g2));
                    cycles = cycles + 1;
                    assert forall|post: Graph, f: nat|
                        #[trigger] sched_rel(*self, prev, post, f) implies sched_rel(
                        g_start,
                        prev0,
                        post,
                        f + cycles,
                    ) by {
                        assert(g1.tick_progress_micros >= TICK_FULL_MICROS);
                        assert(sched_rel(spec_retire(g2), 0, post, f));
                        assert(phase_b_fired(g1, g2));
                        assert(sched_after_a(g1, post, (f + 1) as nat));
                        assert(sched_rel(g_h, prev_h, post, (f + 1) as nat)) by {
                            if prev_h < TICK_HALF_MICROS && g_h.tick_progress_micros
                                >= TICK_HALF_MICROS {
                                assert(phase_a_fired(g_h, g1));
                            } else {
                                assert(g1 == g_h);
                            }
                        }
                        assert(sched_rel(g_start, prev0, post, (f + 1) + cycles_h));
                    }
                }
            } else {
                proof {
                    assert(sched_after_a(g1, *self, 0nat));
                    assert(sched_rel(g_h, prev_h, *self, 0nat)) by {
                        if prev_h < TICK_HALF_MICROS && g_h.tick_progress_micros
                            >= TICK_HALF_MICROS {
                            assert(phase_a_fired(g_h, g1));
                        } else {
                            assert(g1 == g_h);
                        }
                    }
                    assert(sched_rel(g_start, prev0, *self, 0 + cycles_h));
                }
                break ;
            }
        }
    }

    /// Whether the scheduler is running indefinitely.
    pub fn is_running(&self) -> (r: bool)
        ensures
            r == (self.remaining_ticks_to_run < 0),
    {
        self.remaining_ticks_to_run < 0
    }

    /// Swap between running indefinitely and a single queued tick.
    pub fn toggle_play_pause(&mut self)
        ensures
            *final(self) == (Graph {
                remaining_ticks_to_run: if old(self).remaining_ticks_to_run == -1i32 {
                    1i32
                } else {
                    -1i32
                },
                ..*old(self)
            }),
    {
        self.remaining_ticks_to_run = if self.remaining_ticks_to_run == -1 {
            1
        } else {
            -1
        };
    }

    /// Queue one more tick when not running indefinitely; saturates at
    /// the top of the counter instead of overflowing.
    pub fn queue_tick(&mut self)
        ensures
            *final(self) == (Graph {
                remaining_ticks_to_run: if old(self).remaining_ticks_to_run >= 0 {
                    if old(self).remaining_ticks_to_run < i32::MAX {
                        old(self).remaining_ticks_to_run + 1
                    } else {
                        old(self).remaining_ticks_to_run as int
                    }
                } else {
                    old(self).remaining_ticks_to_run as int
                } as i32,
                ..*old(self)
            }),
    {
        if self.remaining_ticks_to_run >= 0 && self.remaining_ticks_to_run < i32::MAX {
            let n = self.remaining_ticks_to_run + 1;
            self.set_remaining_ticks_to_run(n);
        }
    }

    /// Set the signed run budget: `-1` runs indefinitely, `0` pauses, a
    /// positive count runs that many ticks.
    pub fn set_remaining_ticks_to_run(&mut self, ticks: i32)
        ensures
            *final(self) == (Graph { remaining_ticks_to_run: ticks, ..*old(self) }),
    {
        self.remaining_ticks_to_run = ticks;
    }

    pub fn get_remaining_ticks_to_run(&self) -> (r: i32)
        ensures
            r == self.remaining_ticks_to_run,
    {
        self.remaining_ticks_to_run
    }
}

} // verus!

use vstd::prelude::*;

use crate::activity_node::ActivityNode;
use crate::connection::Direction;
use crate::graph::{
    act_index_of, act_node_of, admit_at, admit_seq, conn_index_of, consume_inputs, has_act,
    has_conn, has_input_conn, has_mutex, has_output_conn, is_admission_order, mutex_index_of,
    mutex_node_of, settle_seq, settle_step, spec_ready, tick_a_rel, tick_b_rel, ActivityEntry,
    ActivityNodeId, ConnectionEntry, Graph, MutexEntry, MutexNodeId,
};

verus! {

/// What one settlement pass does to every activity: identity, position,
/// names, priority and duration are untouched; a running activity loses
/// exactly one tick of remaining duration, an idle one stays idle.
/// Together with the admission pass's frame (`admission_frame`) this is
/// admission exclusivity: the remaining duration never decreases and
/// then increases again without passing through zero, and no second
/// execution starts while one is running.
pub open spec fn settlement_frame(pre: Seq<ActivityEntry>, post: Seq<ActivityEntry>) -> bool {
    &&& post.len() == pre.len()
    &&& forall|i: int|
        0 <= i < pre.len() ==> {
            let a = pre[i];
            let b = #[trigger] post[i];
            &&& b.id == a.id
            &&& b.node.pos == a.node.pos
            &&& b.node.task_name == a.node.task_name
            &&& b.node.activity_name == a.node.activity_name
            &&& b.node.priority == a.node.priority
            &&& b.node.duration == a.node.duration
            &&& b.node.remaining_duration == if a.node.remaining_duration > 0 {
                a.node.remaining_duration - 1
            } else {
                0int
            }
        }
}

proof fn lemma_settle_seq_frame(
    acts: Seq<ActivityEntry>,
    muts: Seq<MutexEntry>,
    conns: Seq<ConnectionEntry>,
    i: int,
)
    requires
        0 <= i <= acts.len(),
    ensures
        ({
            let r = settle_seq(acts, muts, conns, i).0;
            &&& r.len() == acts.len()
            &&& forall|k: int| 0 <= k < i ==> #[trigger] r[k] == acts[k]
            &&& forall|k: int|
                i <= k < acts.len() ==> {
                    let a = acts[k];
                    let b = #[trigger] r[k];
                    &&& b.id == a.id
                    &&& b.node.pos == a.node.pos
                    &&& b.node.task_name == a.node.task_name
                    &&& b.node.activity_name == a.node.activity_name
                    &&& b.node.priority == a.node.priority
                    &&& b.node.duration == a.node.duration
                    &&& b.node.remaining_duration == if a.node.remaining_duration > 0 {
                        a.node.remaining_duration - 1
                    } else {
                        0int
                    }
                }
        }),
    decreases acts.len() - i,
{
    if i < acts.len() {
        let s = settle_step(acts, muts, conns, i);
        lemma_settle_seq_frame(s.0, s.1, conns, i + 1);
        assert(s.0.len() == acts.len());
    }
}

/// Settlement decrements every running activity by exactly one tick and
/// touches nothing else of the activity registry.
pub proof fn lemma_settlement_exclusivity(pre: Graph, post: Graph)
    requires
        tick_b_rel(pre, post),
    ensures
        settlement_frame(pre.activity_nodes@, post.activity_nodes@),
{
    lemma_settle_seq_frame(pre.activity_nodes@, pre.mutex_nodes@, pre.connections@, 0);
}

/// Starvation at an empty mutex, the general form of the scenario where
/// a zero-valued resource feeds an idle activity: when some present
/// mutex holds no token and the table carries it into an idle activity,
/// no admission pass (with any seed) starts that activity, because
/// admission can never raise a token count mid-pass.
pub proof fn lemma_empty_input_blocks_admission(
    pre: Graph,
    post: Graph,
    seed: u64,
    a: ActivityNodeId,
    r: MutexNodeId,
)
    requires
        pre.wf_nodes(),
        tick_a_rel(pre, post, seed),
        has_act(pre.activity_nodes@, a),
        act_node_of(pre.activity_nodes@, a).remaining_duration == 0,
        has_conn(pre.connections@, a, r),
        pre.connections@[conn_index_of(pre.connections@, a, r)].connection.direction
            != Direction::ActivityToMutex,
        has_mutex(pre.mutex_nodes@, r),
        mutex_node_of(pre.mutex_nodes@, r).value == 0,
    ensures
        has_act(post.activity_nodes@, a),
        act_node_of(post.activity_nodes@, a).remaining_duration == 0,
{
    let order = choose|order: Seq<usize>|
        is_admission_order(order, pre.activity_nodes@, seed) && admit_seq(
            pre.activity_nodes@,
            pre.mutex_nodes@,
            pre.connections@,
            order,
        ) == (post.activity_nodes@, post.mutex_nodes@);
    lemma_blocked_fold(pre.activity_nodes@, pre.mutex_nodes@, pre.connections@, order, a, r);
    let ia = act_index_of(pre.activity_nodes@, a);
    let r0 = post.activity_nodes@;
    assert(has_act(r0, a)) by {
        assert(r0[ia].id == a);
    }
    let ia2 = act_index_of(r0, a);
    assert(0 <= ia2 < r0.len() && r0[ia2].id == a);
    assert(ia2 == ia) by {
        if ia2 < ia {
            assert(r0[ia2].id != r0[ia].id);
        } else if ia2 > ia {
            assert(r0[ia].id != r0[ia2].id);
        }
    }
}

proof fn lemma_blocked_fold(
    acts: Seq<ActivityEntry>,
    muts: Seq<MutexEntry>,
    conns: Seq<ConnectionEntry>,
    order: Seq<usize>,
    a: ActivityNodeId,
    r: MutexNodeId,
)
    requires
        crate::graph::act_ids_unique(acts),
        crate::graph::mutex_ids_unique(muts),
        forall|i: int| 0 <= i < order.len() ==> (#[trigger] order[i]) < acts.len(),
        has_act(acts, a),
        act_node_of(acts, a).remaining_duration == 0,
        has_conn(conns, a, r),
        conns[conn_index_of(conns, a, r)].connection.direction
            != Direction::ActivityToMutex,
        has_mutex(muts, r),
        mutex_node_of(muts, r).value == 0,
    ensures
        ({
            let (racts, rmuts) = admit_seq(acts, muts, conns, order);
            &&& racts.len() == acts.len()
            &&& racts[act_index_of(acts, a)].id == a
            &&& racts[act_index_of(acts, a)].node.remaining_duration == 0
            &&& forall|k: int| 0 <= k < acts.len() ==> (#[trigger] racts[k]).id == acts[k].id
        }),
    decreases order.len(),
{
    let ia = act_index_of(acts, a);
    assert(0 <= ia < acts.len() && acts[ia].id == a);
    let ir = mutex_index_of(muts, r);
    assert(0 <= ir < muts.len() && muts[ir].id == r);
    let ic = conn_index_of(conns, a, r);
    assert(0 <= ic < conns.len() && conns[ic].activity_id == a && conns[ic].mutex_id == r);
    if order.len() > 0 {
        let idx = order[0] as int;
        let e = acts[idx];
        let s = admit_at(acts, muts, conns, idx);
        if idx == ia {
            // the blocked activity's own turn: the empty input mutex
            // defeats the readiness check
            assert(!spec_ready(muts, conns, e.id)) by {
                assert(conns[ic].activity_id == e.id && conns[ic].connection.direction
                    != Direction::ActivityToMutex && has_mutex(muts, conns[ic].mutex_id));
            }
            assert(s.0 == acts && s.1 == muts);
            lemma_blocked_fold(s.0, s.1, conns, order.drop_first(), a, r);
        } else {
            // someone else's turn: the empty mutex cannot be refilled by
            // admission, and our activity is untouched
            if e.node.remaining_duration == 0 && e.node.duration >= 1 && spec_ready(
                muts,
                conns,
                e.id,
            ) {
                let acts2 = s.0;
                let muts2 = s.1;
                assert(acts2[ia].id == a && acts2[ia].node.remaining_duration == 0) by {
                    assert(acts2[ia] == acts[ia]);
                }
                assert(has_act(acts2, a)) by {
                    assert(acts2[ia].id == a);
                }
                assert(act_index_of(acts2, a) == ia) by {
                    let w = act_index_of(acts2, a);
                    assert(0 <= w < acts2.len() && acts2[w].id == a) by {
                        assert(acts2[ia].id == a);
                    }
                    if w < ia {
                        assert(acts2[w].id != acts2[ia].id) by {
                            assert(acts2[w].id == acts[w].id);
                        }
                    } else if w > ia {
                        assert(acts2[ia].id != acts2[w].id) by {
                            assert(acts2[w].id == acts[w].id);
                        }
                    }
                }
                assert(act_node_of(acts2, a).remaining_duration == 0);
                // the mutex keeps id, presence and emptiness
                assert(muts2.len() == muts.len());
                assert(muts2[ir].id == r);
                assert(has_mutex(muts2, r)) by {
                    assert(muts2[ir].id == r);
                }
                assert(mutex_index_of(muts2, r) == ir) by {
                    let w = mutex_index_of(muts2, r);
                    assert(0 <= w < muts2.len() && muts2[w].id == r) by {
                        assert(muts2[ir].id == r);
                    }
                    if w < ir {
                        assert(muts2[w].id != muts2[ir].id) by {
                            assert(muts2[w].id == muts[w].id);
                        }
                    } else if w > ir {
                        assert(muts2[ir].id != muts2[w].id) by {
                            assert(muts2[w].id == muts[w].id);
                        }
                    }
                }
                // consumption needs a positive count, so a zero count is
                // never consumed from: it stays exactly zero
                assert(muts2[ir].node.value == 0) by {
                    if has_input_conn(conns, e.id, r) {
                        assert(mutex_node_of(muts, r).value > 0) by {
                            let j = choose|j: int|
                                0 <= j < conns.len() && (#[trigger] conns[j]).activity_id == e.id
                                    && conns[j].mutex_id == r && conns[j].connection.direction
                                    != Direction::ActivityToMutex;
                            assert(spec_ready(muts, conns, e.id));
                        }
                        assert(false);
                    }
                }
                assert(mutex_node_of(muts2, r).value == 0);
                assert(crate::graph::act_ids_unique(acts2)) by {
                    assert forall|p: int, q: int|
                        0 <= p < q < acts2.len() implies (#[trigger] acts2[p]).id != (
                    #[trigger] acts2[q]).id by {
                        assert(acts2[p].id == acts[p].id && acts2[q].id == acts[q].id);
                    }
                }
                assert(crate::graph::mutex_ids_unique(muts2)) by {
                    assert forall|p: int, q: int|
                        0 <= p < q < muts2.len() implies (#[trigger] muts2[p]).id != (
                    #[trigger] muts2[q]).id by {
                        assert(muts2[p].id == muts[p].id && muts2[q].id == muts[q].id);
                    }
                }
                lemma_blocked_fold(acts2, muts2, conns, order.drop_first(), a, r);
                assert(act_index_of(acts2, a) == ia);
                let fin = admit_seq(acts2, muts2, conns, order.drop_first());
                assert forall|k: int|
                    0 <= k < acts.len() implies (#[trigger] fin.0[k]).id == acts[k].id by {
                    assert(fin.0[k].id == acts2[k].id);
                }
            } else {
                assert(s.0 == acts && s.1 == muts);
                lemma_blocked_fold(s.0, s.1, conns, order.drop_first(), a, r);
            }
        }
    }
}

/// Priority precedence: two idle activities with distinct priorities
/// contend for one token on a shared input mutex; whatever the seed and
/// whatever the id order, the higher-priority activity is admitted and
/// the lower-priority one is not, and the token is gone.
pub proof fn lemma_priority_precedence(
    pre: Graph,
    post: Graph,
    seed: u64,
    a: ActivityNodeId,
    b: ActivityNodeId,
    r: MutexNodeId,
)
    requires
        pre.wf_nodes(),
        tick_a_rel(pre, post, seed),
        pre.activity_nodes@.len() == 2,
        has_act(pre.activity_nodes@, a),
        has_act(pre.activity_nodes@, b),
        a != b,
        act_node_of(pre.activity_nodes@, a).priority > act_node_of(
            pre.activity_nodes@,
            b,
        ).priority,
        act_node_of(pre.activity_nodes@, a).remaining_duration == 0,
        act_node_of(pre.activity_nodes@, b).remaining_duration == 0,
        act_node_of(pre.activity_nodes@, a).duration >= 1,
        act_node_of(pre.activity_nodes@, b).duration >= 1,
        has_mutex(pre.mutex_nodes@, r),
        mutex_node_of(pre.mutex_nodes@, r).value == 1,
        pre.connections@.len() == 2,
        has_conn(pre.connections@, a, r),
        has_conn(pre.connections@, b, r),
        pre.connections@[conn_index_of(pre.connections@, a, r)].connection.direction
            != Direction::ActivityToMutex,
        pre.connections@[conn_index_of(pre.connections@, b, r)].connection.direction
            != Direction::ActivityToMutex,
    ensures
        act_node_of(post.activity_nodes@, a).remaining_duration == act_node_of(
            pre.activity_nodes@,
            a,
        ).duration,
        act_node_of(post.activity_nodes@, b).remaining_duration == 0,
        mutex_node_of(post.mutex_nodes@, r).value == 0,
{
    let acts = pre.activity_nodes@;
    let muts = pre.mutex_nodes@;
    let conns = pre.connections@;
    let ia = act_index_of(acts, a);
    let ib = act_index_of(acts, b);
    assert(0 <= ia < 2 && acts[ia].id == a);
    assert(0 <= ib < 2 && acts[ib].id == b);
    assert(ia != ib);
    let ir = mutex_index_of(muts, r);
    assert(0 <= ir < muts.len() && muts[ir].id == r);
    let ica = conn_index_of(conns, a, r);
    let icb = conn_index_of(conns, b, r);
    assert(0 <= ica < 2 && conns[ica].activity_id == a && conns[ica].mutex_id == r);
    assert(0 <= icb < 2 && conns[icb].activity_id == b && conns[icb].mutex_id == r);
    assert(ica != icb);

    let order = choose|order: Seq<usize>|
        is_admission_order(order, acts, seed) && admit_seq(acts, muts, conns, order) == (
        post.activity_nodes@,
        post.mutex_nodes@,
        );
    assert(order.len() == 2);
    assert(order[0] != order[1]);
    assert(order[0] < 2 && order[1] < 2);
    // the sorted order puts the higher priority first
    assert(crate::graph::entry_precedes(seed, acts[order[0] as int], acts[order[1] as int]));
    assert(order[0] as int == ia && order[1] as int == ib) by {
        if order[0] as int == ib {
            assert(order[1] as int == ia);
            assert(acts[ib].node.priority < acts[ia].node.priority);
            assert(!crate::graph::entry_precedes(seed, acts[ib], acts[ia]));
        }
    }

    // first step: `a` is ready (its one input record points at `r`,
    // which holds the token) and is admitted, consuming the token
    assert(spec_ready(muts, conns, a)) by {
        assert forall|j: int|
            0 <= j < conns.len() && (#[trigger] conns[j]).activity_id == a
                && conns[j].connection.direction != Direction::ActivityToMutex && has_mutex(
                muts,
                conns[j].mutex_id,
            ) implies mutex_node_of(muts, conns[j].mutex_id).value > 0 by {
            assert(j == ica || j == icb);
            assert(conns[j].mutex_id == r);
            assert(mutex_node_of(muts, r).value == 1);
        }
    }
    let s1 = admit_at(acts, muts, conns, ia);
    let acts1 = s1.0;
    let muts1 = s1.1;
    assert(acts1[ia].node.remaining_duration == acts[ia].node.duration);
    assert(acts1[ib] == acts[ib]);
    assert(has_input_conn(conns, a, r)) by {
        assert(conns[ica].activity_id == a && conns[ica].mutex_id == r
            && conns[ica].connection.direction != Direction::ActivityToMutex);
    }
    assert(muts1[ir].node.value == 0) by {
        assert(muts1[ir] == consume_inputs(muts, conns, a)[ir]);
        assert(muts[ir].id == r);
    }
    assert(mutex_ids_stable(muts, muts1)) by {
        assert forall|k: int| 0 <= k < muts.len() implies (#[trigger] muts1[k]).id == muts[k].id by {}
    }

    // second step: `b` finds the mutex empty and is not admitted
    assert(has_mutex(muts1, r)) by {
        assert(muts1[ir].id == r);
    }
    assert(mutex_index_of(muts1, r) == ir) by {
        let w = mutex_index_of(muts1, r);
        assert(0 <= w < muts1.len() && muts1[w].id == r) by {
            assert(muts1[ir].id == r);
        }
        if w != ir {
            assert(muts1[w].id == muts[w].id && muts1[ir].id == muts[ir].id);
            if w < ir {
                assert(muts[w].id != muts[ir].id);
            } else {
                assert(muts[ir].id != muts[w].id);
            }
        }
    }
    assert(!spec_ready(muts1, conns, b)) by {
        assert(conns[icb].activity_id == b && conns[icb].connection.direction
            != Direction::ActivityToMutex && has_mutex(muts1, conns[icb].mutex_id));
        assert(mutex_node_of(muts1, r).value == 0);
    }
    let s2 = admit_at(acts1, muts1, conns, ib);
    assert(s2.0 == acts1 && s2.1 == muts1);

    // fold the two steps together
    assert(admit_seq(acts, muts, conns, order) == (acts1, muts1)) by {
        reveal_with_fuel(admit_seq, 3);
        assert(order.drop_first().len() == 1);
        assert(order.drop_first()[0] == order[1]);
        assert(order.drop_first().drop_first().len() == 0);
        assert(admit_seq(s2.0, s2.1, conns, order.drop_first().drop_first()) == (s2.0, s2.1));
    }
    assert(post.activity_nodes@ == acts1 && post.mutex_nodes@ == muts1);

    // read the result back through the lookups
    assert(act_index_of(acts1, a) == ia) by {
        let w = act_index_of(acts1, a);
        assert(acts1[ia].id == a);
        assert(0 <= w < acts1.len() && acts1[w].id == a);
        if w != ia {
            assert(acts1[w].id == acts[w].id);
            if w < ia {
                assert(acts[w].id != acts[ia].id);
            } else {
                assert(acts[ia].id != acts[w].id);
            }
        }
    }
    assert(act_index_of(acts1, b) == ib) by {
        let w = act_index_of(acts1, b);
        assert(acts1[ib].id == b);
        assert(0 <= w < acts1.len() && acts1[w].id == b);
        if w != ib {
            if w < ib {
                assert(acts1[w].id != acts1[ib].id);
            } else {
                assert(acts1[ib].id != acts1[w].id);
            }
        }
    }
}

/// Mutex identities agree index by index.
pub open spec fn mutex_ids_stable(pre: Seq<MutexEntry>, post: Seq<MutexEntry>) -> bool {
    &&& post.len() == pre.len()
    &&& forall|k: int| 0 <= k < pre.len() ==> (#[trigger] post[k]).id == pre[k].id
}

/// Number of connection records for one (activity, mutex) pair; zero or
/// one in a well-formed table.
pub open spec fn cnt_pair(
    conns: Seq<ConnectionEntry>,
    activity_id: ActivityNodeId,
    mutex_id: MutexNodeId,
) -> nat
    decreases conns.len(),
{
    if conns.len() == 0 {
        0
    } else {
        cnt_pair(conns.drop_last(), activity_id, mutex_id) + if conns.last().activity_id
            == activity_id && conns.last().mutex_id == mutex_id {
            1nat
        } else {
            0nat
        }
    }
}

/// Number of connection records that tie the given mutex to a present,
/// currently running activity: the tokens "in flight" through that
/// mutex's neighbours.
pub open spec fn running_holders(
    acts: Seq<ActivityEntry>,
    conns: Seq<ConnectionEntry>,
    mutex_id: MutexNodeId,
) -> nat
    decreases conns.len(),
{
    if conns.len() == 0 {
        0
    } else {
        running_holders(acts, conns.drop_last(), mutex_id) + {
            let e = conns.last();
            if e.mutex_id == mutex_id && has_act(acts, e.activity_id) && act_node_of(
                acts,
                e.activity_id,
            ).remaining_duration > 0 {
                1nat
            } else {
                0nat
            }
        }
    }
}

/// Every record naming the mutex is bidirectional: the mutex is both
/// consumed from and produced into by each of its neighbours, the
/// equal-weight single input/output shape of the conservation law.
pub open spec fn all_records_two_way(conns: Seq<ConnectionEntry>, mutex_id: MutexNodeId) -> bool {
    forall|j: int|
        0 <= j < conns.len() && (#[trigger] conns[j]).mutex_id == mutex_id
            ==> conns[j].connection.direction == Direction::TwoWay
}

/// The conserved quantity: tokens resting in the mutex plus tokens held
/// by running neighbours.
pub open spec fn tokens_in_flight(g: Graph, mutex_id: MutexNodeId) -> int {
    mutex_node_of(g.mutex_nodes@, mutex_id).value + running_holders(
        g.activity_nodes@,
        g.connections@,
        mutex_id,
    )
}

proof fn lemma_cnt_pair_unique(
    conns: Seq<ConnectionEntry>,
    activity_id: ActivityNodeId,
    mutex_id: MutexNodeId,
)
    requires
        crate::graph::conn_pairs_unique(conns),
    ensures
        cnt_pair(conns, activity_id, mutex_id) == if has_conn(conns, activity_id, mutex_id) {
            1nat
        } else {
            0nat
        },
    decreases conns.len(),
{
    if conns.len() > 0 {
        let front = conns.drop_last();
        assert(crate::graph::conn_pairs_unique(front)) by {
            assert(forall|i: int, j: int|
                0 <= i < j < front.len() ==> front[i] == conns[i] && front[j] == conns[j]);
        }
        lemma_cnt_pair_unique(front, activity_id, mutex_id);
        let e = conns.last();
        if e.activity_id == activity_id && e.mutex_id == mutex_id {
            assert(!has_conn(front, activity_id, mutex_id)) by {
                if has_conn(front, activity_id, mutex_id) {
                    let w = choose|w: int|
                        0 <= w < front.len() && (#[trigger] front[w]).activity_id == activity_id
                            && front[w].mutex_id == mutex_id;
                    assert(conns[w] == front[w]);
                    assert(conns[conns.len() - 1] == e);
                }
            }
            assert(has_conn(conns, activity_id, mutex_id)) by {
                assert(conns[conns.len() - 1].activity_id == activity_id);
            }
        } else {
            assert(has_conn(conns, activity_id, mutex_id) == has_conn(
                front,
                activity_id,
                mutex_id,
            )) by {
                if has_conn(conns, activity_id, mutex_id) {
                    let w = choose|w: int|
                        0 <= w < conns.len() && (#[trigger] conns[w]).activity_id == activity_id
                            && conns[w].mutex_id == mutex_id;
                    assert(w < conns.len() - 1);
                    assert(front[w] == conns[w]);
                }
                if has_conn(front, activity_id, mutex_id) {
                    let w = choose|w: int|
                        0 <= w < front.len() && (#[trigger] front[w]).activity_id == activity_id
                            && front[w].mutex_id == mutex_id;
                    assert(conns[w] == front[w]);
                }
            }
        }
    }
}

/// How the in-flight count reacts to replacing one activity entry (same
/// id, possibly different remaining duration).
proof fn lemma_holders_update(
    acts: Seq<ActivityEntry>,
    conns: Seq<ConnectionEntry>,
    mutex_id: MutexNodeId,
    idx: int,
    e2: ActivityEntry,
)
    requires
        crate::graph::act_ids_unique(acts),
        0 <= idx < acts.len(),
        e2.id == acts[idx].id,
    ensures
        running_holders(acts.update(idx, e2), conns, mutex_id) as int == running_holders(
            acts,
            conns,
            mutex_id,
        ) - (if acts[idx].node.remaining_duration > 0 {
            cnt_pair(conns, e2.id, mutex_id) as int
        } else {
            0
        }) + (if e2.node.remaining_duration > 0 {
            cnt_pair(conns, e2.id, mutex_id) as int
        } else {
            0
        }),
    decreases conns.len(),
{
    let acts2 = acts.update(idx, e2);
    if conns.len() > 0 {
        lemma_holders_update(acts, conns.drop_last(), mutex_id, idx, e2);
        let e = conns.last();
        // entry-wise contribution: unchanged unless the record names the
        // updated activity and this mutex
        if e.mutex_id == mutex_id {
            assert(has_act(acts2, e.activity_id) == has_act(acts, e.activity_id)) by {
                if has_act(acts, e.activity_id) {
                    let w = choose|w: int|
                        0 <= w < acts.len() && (#[trigger] acts[w]).id == e.activity_id;
                    if w == idx {
                        assert(acts2[idx].id == e.activity_id);
                    } else {
                        assert(acts2[w].id == e.activity_id);
                    }
                }
                if has_act(acts2, e.activity_id) {
                    let w = choose|w: int|
                        0 <= w < acts2.len() && (#[trigger] acts2[w]).id == e.activity_id;
                    if w == idx {
                        assert(acts[idx].id == e.activity_id);
                    } else {
                        assert(acts[w].id == e.activity_id);
                    }
                }
            }
            if has_act(acts, e.activity_id) {
                let w = act_index_of(acts, e.activity_id);
                assert(0 <= w < acts.len() && acts[w].id == e.activity_id);
                let w2 = act_index_of(acts2, e.activity_id);
                assert(0 <= w2 < acts2.len() && acts2[w2].id == e.activity_id);
                assert(w2 == w) by {
                    assert(acts2[w2].id == if w2 == idx {
                        e2.id
                    } else {
                        acts[w2].id
                    });
                    if w2 < w {
                        assert(acts[w2].id != acts[w].id);
                    } else if w2 > w {
                        assert(acts[w].id != acts[w2].id);
                    }
                }
                if e.activity_id == e2.id {
                    assert(w == idx) by {
                        if w < idx {
                            assert(acts[w].id != acts[idx].id);
                        } else if w > idx {
                            assert(acts[idx].id != acts[w].id);
                        }
                    }
                    assert(act_node_of(acts2, e.activity_id) == e2.node);
                    assert(act_node_of(acts, e.activity_id) == acts[idx].node);
                } else {
                    assert(w != idx) by {
                        if w == idx {
                            assert(acts[idx].id == e.activity_id);
                        }
                    }
                    assert(act_node_of(acts2, e.activity_id) == acts[w].node);
                    assert(act_node_of(acts, e.activity_id) == acts[w].node);
                }
            }
        }
    }
}

/// Token conservation across one admission pass: around a mutex whose
/// records are all bidirectional, the tokens resting in the mutex plus
/// the tokens held by running neighbours form an invariant sum.
pub proof fn lemma_token_conservation_admission(
    pre: Graph,
    post: Graph,
    seed: u64,
    r: MutexNodeId,
)
    requires
        pre.wf_nodes(),
        tick_a_rel(pre, post, seed),
        has_mutex(pre.mutex_nodes@, r),
        all_records_two_way(pre.connections@, r),
    ensures
        tokens_in_flight(post, r) == tokens_in_flight(pre, r),
{
    let order = choose|order: Seq<usize>|
        is_admission_order(order, pre.activity_nodes@, seed) && admit_seq(
            pre.activity_nodes@,
            pre.mutex_nodes@,
            pre.connections@,
            order,
        ) == (post.activity_nodes@, post.mutex_nodes@);
    lemma_conservation_admit_fold(
        pre.activity_nodes@,
        pre.mutex_nodes@,
        pre.connections@,
        order,
        r,
    );
}

proof fn lemma_conservation_admit_fold(
    acts: Seq<ActivityEntry>,
    muts: Seq<MutexEntry>,
    conns: Seq<ConnectionEntry>,
    order: Seq<usize>,
    r: MutexNodeId,
)
    requires
        crate::graph::act_ids_unique(acts),
        crate::graph::mutex_ids_unique(muts),
        crate::graph::conn_pairs_unique(conns),
        forall|i: int| 0 <= i < order.len() ==> (#[trigger] order[i]) < acts.len(),
        has_mutex(muts, r),
        all_records_two_way(conns, r),
    ensures
        ({
            let (racts, rmuts) = admit_seq(acts, muts, conns, order);
            &&& mutex_ids_stable(muts, rmuts)
            &&& mutex_node_of(rmuts, r).value + running_holders(racts, conns, r) == mutex_node_of(
                muts,
                r,
            ).value + running_holders(acts, conns, r)
        }),
    decreases order.len(),
{
    let ir = mutex_index_of(muts, r);
    assert(0 <= ir < muts.len() && muts[ir].id == r);
    if order.len() > 0 {
        let idx = order[0] as int;
        let e = acts[idx];
        let s = admit_at(acts, muts, conns, idx);
        let acts2 = s.0;
        let muts2 = s.1;
        if e.node.remaining_duration == 0 && e.node.duration >= 1 && spec_ready(
            muts,
            conns,
            e.id,
        ) {
            let e2 = (ActivityEntry {
                id: e.id,
                node: (ActivityNode { remaining_duration: e.node.duration, ..e.node }),
            });
            assert(acts2 == acts.update(idx, e2));
            lemma_holders_update(acts, conns, r, idx, e2);
            lemma_cnt_pair_unique(conns, e.id, r);
            // the new value at r after consumption
            assert(muts2.len() == muts.len());
            assert(mutex_ids_stable(muts, muts2)) by {
                assert(forall|k: int| 0 <= k < muts.len() ==> (#[trigger] muts2[k]).id == muts[k].id);
            }
            assert(has_mutex(muts2, r)) by {
                assert(muts2[ir].id == r);
            }
            assert(mutex_index_of(muts2, r) == ir) by {
                let w = mutex_index_of(muts2, r);
                assert(0 <= w < muts2.len() && muts2[w].id == r) by {
                    assert(muts2[ir].id == r);
                }
                if w < ir {
                    assert(muts2[w].id != muts2[ir].id) by {
                        assert(muts2[w].id == muts[w].id);
                    }
                } else if w > ir {
                    assert(muts2[ir].id != muts2[w].id) by {
                        assert(muts2[w].id == muts[w].id);
                    }
                }
            }
            if has_conn(conns, e.id, r) {
                // the admitted activity holds a token of r afterwards and
                // has consumed exactly one from it
                assert(has_input_conn(conns, e.id, r)) by {
                    let w = conn_index_of(conns, e.id, r);
                    assert(0 <= w < conns.len() && conns[w].activity_id == e.id
                        && conns[w].mutex_id == r);
                    assert(conns[w].connection.direction == Direction::TwoWay);
                }
                assert(mutex_node_of(muts, r).value > 0) by {
                    let j = choose|j: int|
                        0 <= j < conns.len() && (#[trigger] conns[j]).activity_id == e.id
                            && conns[j].mutex_id == r && conns[j].connection.direction
                            != Direction::ActivityToMutex;
                    assert(spec_ready(muts, conns, e.id));
                }
                assert(muts2[ir].node.value == muts[ir].node.value - 1) by {
                    assert(muts2[ir] == consume_inputs(muts, conns, e.id)[ir]);
                    assert(muts[ir].id == r);
                    assert(mutex_node_of(muts, r) == muts[ir].node);
                }
            } else {
                // no record between them: neither the count nor the
                // holders change on r's account
                assert(!has_input_conn(conns, e.id, r)) by {
                    if has_input_conn(conns, e.id, r) {
                        let j = choose|j: int|
                            0 <= j < conns.len() && (#[trigger] conns[j]).activity_id == e.id
                                && conns[j].mutex_id == r && conns[j].connection.direction
                                != Direction::ActivityToMutex;
                        assert(has_conn(conns, e.id, r)) by {
                            assert(conns[j].activity_id == e.id && conns[j].mutex_id == r);
                        }
                    }
                }
                assert(muts2[ir].node.value == muts[ir].node.value) by {
                    assert(muts2[ir] == consume_inputs(muts, conns, e.id)[ir]);
                    assert(muts[ir].id == r);
                }
            }
            assert(crate::graph::act_ids_unique(acts2)) by {
                assert forall|p: int, q: int|
                    0 <= p < q < acts2.len() implies (#[trigger] acts2[p]).id != (
                #[trigger] acts2[q]).id by {
                    assert(acts2[p].id == acts[p].id && acts2[q].id == acts[q].id);
                }
            }
            assert(crate::graph::mutex_ids_unique(muts2)) by {
                assert forall|p: int, q: int|
                    0 <= p < q < muts2.len() implies (#[trigger] muts2[p]).id != (
                #[trigger] muts2[q]).id by {
                    assert(muts2[p].id == muts[p].id && muts2[q].id == muts[q].id);
                }
            }
            assert(mutex_node_of(muts2, r) == muts2[ir].node);
            lemma_conservation_admit_fold(acts2, muts2, conns, order.drop_first(), r);
        } else {
            assert(s.0 == acts && s.1 == muts);
            lemma_conservation_admit_fold(acts, muts, conns, order.drop_first(), r);
        }
    }
}

/// Token conservation across one settlement pass: with all records on
/// the mutex bidirectional and no saturation, a finishing neighbour
/// hands its token straight back.
pub proof fn lemma_token_conservation_settlement(pre: Graph, post: Graph, r: MutexNodeId)
    requires
        pre.wf_nodes(),
        tick_b_rel(pre, post),
        has_mutex(pre.mutex_nodes@, r),
        all_records_two_way(pre.connections@, r),
        tokens_in_flight(pre, r) <= u32::MAX,
    ensures
        tokens_in_flight(post, r) == tokens_in_flight(pre, r),
{
    lemma_conservation_settle_fold(
        pre.activity_nodes@,
        pre.mutex_nodes@,
        pre.connections@,
        0,
        r,
    );
}

proof fn lemma_conservation_settle_fold(
    acts: Seq<ActivityEntry>,
    muts: Seq<MutexEntry>,
    conns: Seq<ConnectionEntry>,
    i: int,
    r: MutexNodeId,
)
    requires
        crate::graph::act_ids_unique(acts),
        crate::graph::mutex_ids_unique(muts),
        crate::graph::conn_pairs_unique(conns),
        0 <= i <= acts.len(),
        has_mutex(muts, r),
        all_records_two_way(conns, r),
        mutex_node_of(muts, r).value + running_holders(acts, conns, r) <= u32::MAX,
    ensures
        ({
            let (racts, rmuts) = settle_seq(acts, muts, conns, i);
            &&& mutex_ids_stable(muts, rmuts)
            &&& mutex_node_of(rmuts, r).value + running_holders(racts, conns, r) == mutex_node_of(
                muts,
                r,
            ).value + running_holders(acts, conns, r)
        }),
    decreases acts.len() - i,
{
    let ir = mutex_index_of(muts, r);
    assert(0 <= ir < muts.len() && muts[ir].id == r);
    if i < acts.len() {
        let e = acts[i];
        let s = settle_step(acts, muts, conns, i);
        let acts2 = s.0;
        let muts2 = s.1;
        if e.node.remaining_duration > 0 {
            let e2 = (ActivityEntry {
                id: e.id,
                node: (ActivityNode {
                    remaining_duration: (e.node.remaining_duration - 1) as u32,
                    ..e.node
                }),
            });
            assert(acts2 == acts.update(i, e2));
            lemma_holders_update(acts, conns, r, i, e2);
            lemma_cnt_pair_unique(conns, e.id, r);
            assert(crate::graph::act_ids_unique(acts2)) by {
                assert forall|p: int, q: int|
                    0 <= p < q < acts2.len() implies (#[trigger] acts2[p]).id != (
                #[trigger] acts2[q]).id by {
                    assert(acts2[p].id == acts[p].id && acts2[q].id == acts[q].id);
                }
            }
            if e.node.remaining_duration == 1 {
                // the neighbour finishes: it stops holding its token and
                // the mutex gains one
                assert(muts2 == crate::graph::produce_outputs(muts, conns, e.id));
                assert(mutex_ids_stable(muts, muts2)) by {
                    assert(forall|k: int|
                        0 <= k < muts.len() ==> (#[trigger] muts2[k]).id == muts[k].id);
                }
                assert(crate::graph::mutex_ids_unique(muts2)) by {
                    assert forall|p: int, q: int|
                        0 <= p < q < muts2.len() implies (#[trigger] muts2[p]).id != (
                    #[trigger] muts2[q]).id by {
                        assert(muts2[p].id == muts[p].id && muts2[q].id == muts[q].id);
                    }
                }
                assert(has_mutex(muts2, r)) by {
                    assert(muts2[ir].id == r);
                }
                assert(mutex_index_of(muts2, r) == ir) by {
                    let w = mutex_index_of(muts2, r);
                    assert(0 <= w < muts2.len() && muts2[w].id == r) by {
                        assert(muts2[ir].id == r);
                    }
                    if w < ir {
                        assert(muts2[w].id != muts2[ir].id) by {
                            assert(muts2[w].id == muts[w].id);
                        }
                    } else if w > ir {
                        assert(muts2[ir].id != muts2[w].id) by {
                            assert(muts2[w].id == muts[w].id);
                        }
                    }
                }
                if has_conn(conns, e.id, r) {
                    assert(has_output_conn(conns, e.id, r)) by {
                        let w = conn_index_of(conns, e.id, r);
                        assert(0 <= w < conns.len() && conns[w].activity_id == e.id
                            && conns[w].mutex_id == r);
                        assert(conns[w].connection.direction == Direction::TwoWay);
                    }
                    // holders counted this running neighbour, so the sum
                    // bound leaves room for the increment
                    assert(running_holders(acts, conns, r) >= 1) by {
                        assert(running_holders(acts2, conns, r) as int == running_holders(
                            acts,
                            conns,
                            r,
                        ) - 1);
                    }
                    assert(muts[ir].node.value < u32::MAX);
                    assert(muts2[ir].node.value == muts[ir].node.value + 1) by {
                        assert(muts2[ir] == crate::graph::produce_outputs(muts, conns, e.id)[ir]);
                        assert(muts[ir].id == r);
                        assert(crate::graph::has_output_conn(conns, e.id, muts[ir].id));
                    }
                } else {
                    assert(!crate::graph::has_output_conn(conns, e.id, r)) by {
                        if crate::graph::has_output_conn(conns, e.id, r) {
                            let j = choose|j: int|
                                0 <= j < conns.len() && (#[trigger] conns[j]).activity_id == e.id
                                    && conns[j].mutex_id == r && conns[j].connection.direction
                                    != Direction::MutexToActivity;
                            assert(has_conn(conns, e.id, r)) by {
                                assert(conns[j].activity_id == e.id && conns[j].mutex_id == r);
                            }
                        }
                    }
                    assert(muts2[ir].node.value == muts[ir].node.value) by {
                        assert(muts2[ir] == crate::graph::produce_outputs(muts, conns, e.id)[ir]);
                        assert(muts[ir].id == r);
                    }
                }
                assert(mutex_node_of(muts2, r) == muts2[ir].node);
            } else {
                assert(muts2 == muts);
            }
            lemma_conservation_settle_fold(acts2, muts2, conns, i + 1, r);
        } else {
            assert(s.0 == acts && s.1 == muts);
            lemma_conservation_settle_fold(acts, muts, conns, i + 1, r);
        }
    }
}

/// No negative tokens: a token count is unsigned, so it can never be
/// observed below zero. The substance behind this is that admission —
/// the only operation that decrements a count — is verified free of
/// underflow: its readiness check is the sole guard, and
/// `tick_a_with_seed` discharges the proof that every decremented
/// mutex held a positive count at that moment (`muts_frame_dec` then
/// bounds every pass from above by the previous counts).
pub proof fn lemma_no_negative_tokens(g: Graph, r: MutexNodeId)
    requires
        has_mutex(g.mutex_nodes@, r),
    ensures
        mutex_node_of(g.mutex_nodes@, r).value >= 0,
{
}

/// The in-flight count only reads each record's endpoints, so two
/// tables with the same pairs count the same holders.
proof fn lemma_holders_same_pairs(
    acts: Seq<ActivityEntry>,
    conns1: Seq<ConnectionEntry>,
    conns2: Seq<ConnectionEntry>,
    r: MutexNodeId,
)
    requires
        conns2.len() == conns1.len(),
        forall|j: int|
            0 <= j < conns1.len() ==> (#[trigger] conns2[j]).activity_id == conns1[j].activity_id
                && conns2[j].mutex_id == conns1[j].mutex_id,
    ensures
        running_holders(acts, conns2, r) == running_holders(acts, conns1, r),
    decreases conns1.len(),
{
    if conns1.len() > 0 {
        assert(forall|j: int|
            0 <= j < conns1.drop_last().len() ==> (#[trigger] conns2.drop_last()[j]).activity_id
                == conns1.drop_last()[j].activity_id && conns2.drop_last()[j].mutex_id
                == conns1.drop_last()[j].mutex_id);
        lemma_holders_same_pairs(acts, conns1.drop_last(), conns2.drop_last(), r);
        assert(conns2.last().activity_id == conns1.last().activity_id && conns2.last().mutex_id
            == conns1.last().mutex_id) by {
            assert(conns2[conns1.len() - 1].activity_id == conns1[conns1.len() - 1].activity_id);
        }
    }
}

/// A connection-state update pass moves no tokens: it touches only the
/// automata, never an endpoint, a direction or a node value.
pub proof fn lemma_token_conservation_update(pre: Graph, post: Graph, r: MutexNodeId)
    requires
        crate::graph::conns_updated(pre, post),
        has_mutex(pre.mutex_nodes@, r),
        all_records_two_way(pre.connections@, r),
    ensures
        tokens_in_flight(post, r) == tokens_in_flight(pre, r),
        all_records_two_way(post.connections@, r),
        has_mutex(post.mutex_nodes@, r),
{
    let upd = pre.spec_update_connection_states();
    assert(forall|j: int|
        0 <= j < pre.connections@.len() ==> (#[trigger] upd[j]).activity_id
            == pre.connections@[j].activity_id && upd[j].mutex_id == pre.connections@[j].mutex_id
            && upd[j].connection.direction == pre.connections@[j].connection.direction);
    lemma_holders_same_pairs(pre.activity_nodes@, pre.connections@, post.connections@, r);
}

/// Token conservation across one full admission firing as the scheduler
/// performs it: the admission pass with any seed, followed by the
/// connection-state update.
pub proof fn lemma_token_conservation_phase_a(pre: Graph, post: Graph, r: MutexNodeId)
    requires
        pre.wf_nodes(),
        crate::graph::phase_a_fired(pre, post),
        has_mutex(pre.mutex_nodes@, r),
        all_records_two_way(pre.connections@, r),
    ensures
        tokens_in_flight(post, r) == tokens_in_flight(pre, r),
        all_records_two_way(post.connections@, r),
        has_mutex(post.mutex_nodes@, r),
{
    let (mid, seed) = choose|mid: Graph, seed: u64|
        tick_a_rel(pre, mid, seed) && crate::graph::conns_updated(mid, post);
    lemma_token_conservation_admission(pre, mid, seed, r);
    assert(has_mutex(mid.mutex_nodes@, r)) by {
        let order = choose|order: Seq<usize>|
            is_admission_order(order, pre.activity_nodes@, seed) && admit_seq(
                pre.activity_nodes@,
                pre.mutex_nodes@,
                pre.connections@,
                order,
            ) == (mid.activity_nodes@, mid.mutex_nodes@);
        lemma_conservation_admit_fold(
            pre.activity_nodes@,
            pre.mutex_nodes@,
            pre.connections@,
            order,
            r,
        );
        let ir = mutex_index_of(pre.mutex_nodes@, r);
        assert(mid.mutex_nodes@[ir].id == r);
    }
    lemma_token_conservation_update(mid, post, r);
}

/// Token conservation across one full settlement firing as the
/// scheduler performs it, short of saturation.
pub proof fn lemma_token_conservation_phase_b(pre: Graph, post: Graph, r: MutexNodeId)
    requires
        pre.wf_nodes(),
        crate::graph::phase_b_fired(pre, post),
        has_mutex(pre.mutex_nodes@, r),
        all_records_two_way(pre.connections@, r),
        tokens_in_flight(pre, r) <= u32::MAX,
    ensures
        tokens_in_flight(post, r) == tokens_in_flight(pre, r),
        all_records_two_way(post.connections@, r),
        has_mutex(post.mutex_nodes@, r),
{
    let mid = choose|mid: Graph|
        tick_b_rel(pre, mid) && crate::graph::conns_updated(mid, post);
    lemma_token_conservation_settlement(pre, mid, r);
    assert(has_mutex(mid.mutex_nodes@, r)) by {
        lemma_conservation_settle_fold(
            pre.activity_nodes@,
            pre.mutex_nodes@,
            pre.connections@,
            0,
            r,
        );
        let ir = mutex_index_of(pre.mutex_nodes@, r);
        assert(mid.mutex_nodes@[ir].id == r);
    }
    lemma_token_conservation_update(mid, post, r);
}

} // verus!

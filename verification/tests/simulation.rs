use tsyncs::activity_node::ActivityNode;
use tsyncs::connection::{
    ActivityToMutexState, Connection, Direction, MutexToActivityState,
};
use tsyncs::geom::Pos;
use tsyncs::graph::{ActivityNodeId, Graph, MutexNodeId};
use tsyncs::mutex_node::MutexNode;

fn activity(priority: u32, duration: u32) -> ActivityNode {
    let mut a = ActivityNode::new(Pos::new(0, 0));
    a.priority = priority;
    a.duration = duration;
    a
}

fn mutex(value: u32) -> MutexNode {
    let mut m = MutexNode::new(Pos::new(0, 0));
    m.value = value;
    m
}

fn remaining(g: &Graph, id: ActivityNodeId) -> u32 {
    let i = g.find_activity_index(id).unwrap();
    g.activity_nodes[i].node.remaining_duration
}

fn value(g: &Graph, id: MutexNodeId) -> u32 {
    let i = g.find_mutex_index(id).unwrap();
    g.mutex_nodes[i].node.value
}

/// Two activities contend for one token; the higher priority wins, for
/// either tie-break parity.
#[test]
fn priority_precedence_single_token() {
    for seed in [0u64, 1, 2, 3, 12345, 98765432100] {
        let mut g = Graph::default();
        let a = g.add_activity_node(activity(5, 1));
        let b = g.add_activity_node(activity(1, 1));
        let r = g.add_mutex_node(mutex(1));
        g.connect(a, r, Direction::MutexToActivity, false);
        g.connect(b, r, Direction::MutexToActivity, false);
        g.tick_a_with_seed(seed);
        assert_eq!(remaining(&g, a), 1);
        assert_eq!(remaining(&g, b), 0);
        assert_eq!(value(&g, r), 0);
    }
}

/// Equal priorities: the tie-break is decided by the seed's parity, and
/// exactly one of the two starts.
#[test]
fn equal_priority_tie_break_is_deterministic() {
    for seed in [0u64, 1] {
        let mut g = Graph::default();
        let a = g.add_activity_node(activity(3, 1));
        let b = g.add_activity_node(activity(3, 1));
        let r = g.add_mutex_node(mutex(1));
        g.connect(a, r, Direction::MutexToActivity, false);
        g.connect(b, r, Direction::MutexToActivity, false);
        g.tick_a_with_seed(seed);
        let started_a = remaining(&g, a) == 1;
        let started_b = remaining(&g, b) == 1;
        assert!(started_a != started_b);
        assert_eq!(value(&g, r), 0);
        // an even seed prefers the higher id, an odd seed the lower
        if seed % 2 == 0 {
            assert!(started_b);
        } else {
            assert!(started_a);
        }
    }
}

/// An activity with duration three and no inputs returns to idle after
/// three full ticks and feeds each output exactly once.
#[test]
fn duration_three_produces_once() {
    let mut g = Graph::default();
    let a = g.add_activity_node(activity(0, 3));
    let r = g.add_mutex_node(mutex(0));
    g.connect(a, r, Direction::ActivityToMutex, false);
    g.tick_a_with_seed(7);
    assert_eq!(remaining(&g, a), 3);
    for expected in [2u32, 1, 0] {
        g.tick_b();
        assert_eq!(remaining(&g, a), expected);
        // no input: once running, further admission passes leave it alone
        g.tick_a_with_seed(expected as u64);
    }
    assert_eq!(value(&g, r), 1);
    // it starts again on the next pass, but the token was produced once
    assert_eq!(remaining(&g, a), 3);
}

/// A zero-valued mutex feeding an idle activity starves it forever.
#[test]
fn empty_input_starves() {
    let mut g = Graph::default();
    let a = g.add_activity_node(activity(9, 2));
    let r = g.add_mutex_node(mutex(0));
    g.connect(a, r, Direction::MutexToActivity, false);
    for seed in 0..50u64 {
        g.tick_a_with_seed(seed);
        g.tick_b();
        assert_eq!(remaining(&g, a), 0);
        assert_eq!(value(&g, r), 0);
    }
}

/// Token conservation around a bidirectional mutex: resting tokens plus
/// running holders is invariant over any number of phases.
#[test]
fn token_conservation_two_way() {
    let mut g = Graph::default();
    let a = g.add_activity_node(activity(1, 2));
    let b = g.add_activity_node(activity(2, 3));
    let r = g.add_mutex_node(mutex(1));
    g.connect(a, r, Direction::TwoWay, false);
    g.connect(b, r, Direction::TwoWay, false);
    let sum = |g: &Graph| {
        let mut s = value(g, r);
        for id in [a, b] {
            if remaining(g, id) > 0 {
                s += 1;
            }
        }
        s
    };
    assert_eq!(sum(&g), 1);
    for seed in 0..20u64 {
        g.tick_a_with_seed(seed);
        assert_eq!(sum(&g), 1);
        g.tick_b();
        assert_eq!(sum(&g), 1);
    }
}

/// An activity with duration zero is never admitted and so never drains
/// its input.
#[test]
fn zero_duration_is_never_admitted() {
    let mut g = Graph::default();
    let a = g.add_activity_node(activity(1, 0));
    let r = g.add_mutex_node(mutex(5));
    g.connect(a, r, Direction::MutexToActivity, false);
    for seed in 0..5u64 {
        g.tick_a_with_seed(seed);
        g.tick_b();
    }
    assert_eq!(remaining(&g, a), 0);
    assert_eq!(value(&g, r), 5);
}

/// Connecting the opposite direction upgrades to `TwoWay`; disconnecting
/// one direction reverts to the remaining one; nothing is duplicated.
#[test]
fn connect_merges_directions() {
    let mut g = Graph::default();
    let a = g.add_activity_node(activity(0, 1));
    let r = g.add_mutex_node(mutex(0));
    g.connect(a, r, Direction::ActivityToMutex, false);
    assert!(g.is_connected(a, r, Direction::ActivityToMutex));
    assert!(!g.is_connected(a, r, Direction::MutexToActivity));
    g.connect(a, r, Direction::MutexToActivity, false);
    assert_eq!(g.connections.len(), 1);
    assert!(g.is_connected(a, r, Direction::ActivityToMutex));
    assert!(g.is_connected(a, r, Direction::MutexToActivity));
    assert!(g.is_connected(a, r, Direction::TwoWay));
    g.disconnect(a, r, Direction::ActivityToMutex);
    assert!(!g.is_connected(a, r, Direction::ActivityToMutex));
    assert!(g.is_connected(a, r, Direction::MutexToActivity));
    g.disconnect(a, r, Direction::MutexToActivity);
    assert_eq!(g.connections.len(), 0);
}

#[test]
fn toggle_connection_round_trips() {
    let mut g = Graph::default();
    let a = g.add_activity_node(activity(0, 1));
    let r = g.add_mutex_node(mutex(0));
    g.toggle_connection(a, r, Direction::MutexToActivity);
    assert!(g.is_connected(a, r, Direction::MutexToActivity));
    g.toggle_connection(a, r, Direction::MutexToActivity);
    assert!(!g.is_connected(a, r, Direction::MutexToActivity));
    assert_eq!(g.connections.len(), 0);
}

/// Removing a node purges every connection record that names it.
#[test]
fn remove_node_purges_connections() {
    let mut g = Graph::default();
    let a = g.add_activity_node(activity(0, 1));
    let b = g.add_activity_node(activity(0, 1));
    let r = g.add_mutex_node(mutex(0));
    g.connect(a, r, Direction::TwoWay, false);
    g.connect(b, r, Direction::MutexToActivity, false);
    assert!(g.remove_activity_node(a));
    assert!(!g.remove_activity_node(a));
    assert_eq!(g.connections.len(), 1);
    assert!(g.find_activity_index(a).is_none());
    assert!(g.remove_mutex_node(r));
    assert_eq!(g.connections.len(), 0);
    // handles are never reused
    let c = g.add_activity_node(activity(0, 1));
    assert!(c.0 > a.0 && c.0 > b.0);
}

/// The mutex-to-activity automaton follows its transition table.
#[test]
fn mutex_to_activity_automaton_table() {
    let idle = activity(0, 2); // remaining 0 != duration 2
    let mut started = activity(0, 2);
    started.remaining_duration = 2; // just started
    let empty = mutex(0);
    let full = mutex(3);

    // charging up and staying charged while tokens are present
    let mut c = Connection::new(Direction::MutexToActivity);
    c.tick(&idle, &full);
    assert_eq!(c.mutex_to_activity_state, MutexToActivityState::Charging);
    c.tick(&idle, &full);
    assert_eq!(c.mutex_to_activity_state, MutexToActivityState::Charged);
    c.tick(&idle, &full);
    assert_eq!(c.mutex_to_activity_state, MutexToActivityState::Charged);

    // charged, token gone, activity just started: forwarding
    c.tick(&started, &empty);
    assert_eq!(c.mutex_to_activity_state, MutexToActivityState::Forwarding);
    // forwarding with the mutex still empty settles to uncharged
    c.tick(&idle, &empty);
    assert_eq!(c.mutex_to_activity_state, MutexToActivityState::Uncharged);

    // charged, token gone, activity not started: uncharging
    let mut d = Connection::new(Direction::MutexToActivity);
    d.tick(&idle, &full);
    d.tick(&idle, &full);
    d.tick(&idle, &empty);
    assert_eq!(d.mutex_to_activity_state, MutexToActivityState::Uncharging);
    d.tick(&idle, &empty);
    assert_eq!(d.mutex_to_activity_state, MutexToActivityState::Uncharged);
}

/// The activity-to-mutex automaton follows its transition table.
#[test]
fn activity_to_mutex_automaton_table() {
    let mut about_to_finish = activity(0, 3);
    about_to_finish.remaining_duration = 1;
    let idle = activity(0, 3);
    let m = mutex(0);

    let mut c = Connection::new(Direction::ActivityToMutex);
    c.tick(&idle, &m);
    assert_eq!(c.activity_to_mutex_state, ActivityToMutexState::Uncharged);
    c.tick(&about_to_finish, &m);
    assert_eq!(c.activity_to_mutex_state, ActivityToMutexState::Charging);
    c.tick(&idle, &m);
    assert_eq!(c.activity_to_mutex_state, ActivityToMutexState::Forwarding);
    c.tick(&idle, &m);
    assert_eq!(c.activity_to_mutex_state, ActivityToMutexState::Uncharged);
}

/// A one-directional record only advances the automaton of its own
/// direction.
#[test]
fn tick_respects_direction() {
    let mut about_to_finish = activity(0, 3);
    about_to_finish.remaining_duration = 1;
    let full = mutex(1);
    let mut c = Connection::new(Direction::MutexToActivity);
    c.tick(&about_to_finish, &full);
    assert_eq!(c.mutex_to_activity_state, MutexToActivityState::Charging);
    assert_eq!(c.activity_to_mutex_state, ActivityToMutexState::Uncharged);
    let mut d = Connection::new(Direction::ActivityToMutex);
    d.tick(&about_to_finish, &full);
    assert_eq!(d.mutex_to_activity_state, MutexToActivityState::Uncharged);
    assert_eq!(d.activity_to_mutex_state, ActivityToMutexState::Charging);
}

/// The scheduler: a paused graph never moves; the admission phase fires
/// at the half-tick mark and settlement at the full tick; several whole
/// ticks can elapse in one call.
#[test]
fn scheduler_fires_phases_at_thresholds() {
    let mut g = Graph::default();
    let a = g.add_activity_node(activity(0, 1));
    let r = g.add_mutex_node(mutex(0));
    g.connect(a, r, Direction::ActivityToMutex, false);

    // paused: nothing happens
    g.tick(10_000_000);
    assert_eq!(remaining(&g, a), 0);
    assert_eq!(g.tick_progress_micros, 0);

    // run exactly one tick: 0.6 s at one tick per second crosses the
    // admission threshold
    g.set_remaining_ticks_to_run(1);
    g.tick(600_000);
    assert_eq!(remaining(&g, a), 1);
    assert_eq!(value(&g, r), 0);
    // finish the tick: settlement fires, the budget is exhausted and
    // progress clamps to zero
    g.tick(400_000);
    assert_eq!(remaining(&g, a), 0);
    assert_eq!(value(&g, r), 1);
    assert_eq!(g.tick_progress_micros, 0);
    assert_eq!(g.get_remaining_ticks_to_run(), 0);

    // run three ticks in one large step
    g.set_remaining_ticks_to_run(3);
    g.tick(10_000_000);
    assert_eq!(g.get_remaining_ticks_to_run(), 0);
    assert_eq!(value(&g, r), 4);
}

#[test]
fn play_pause_and_queueing() {
    let mut g = Graph::default();
    assert!(!g.is_running());
    assert_eq!(g.get_remaining_ticks_to_run(), 0);
    g.toggle_play_pause();
    assert!(g.is_running());
    assert_eq!(g.get_remaining_ticks_to_run(), -1);
    g.toggle_play_pause();
    assert_eq!(g.get_remaining_ticks_to_run(), 1);
    g.queue_tick();
    assert_eq!(g.get_remaining_ticks_to_run(), 2);
    g.set_remaining_ticks_to_run(-1);
    g.queue_tick();
    assert_eq!(g.get_remaining_ticks_to_run(), -1);
}

/// Inserting under an explicit id replaces in place and keeps the
/// allocator above every handle.
#[test]
fn add_with_id_replaces_and_bumps_allocator() {
    let mut g = Graph::default();
    let a = g.add_activity_node(activity(1, 1));
    assert_eq!(a.0, 0);
    let b = g.add_activiy_node_with_id(activity(7, 2), ActivityNodeId(5));
    assert_eq!(b.0, 5);
    let c = g.add_activity_node(activity(0, 1));
    assert_eq!(c.0, 6);
    // replacing keeps the registry position
    g.add_activiy_node_with_id(activity(9, 3), ActivityNodeId(5));
    assert_eq!(g.activity_nodes.len(), 3);
    let i = g.find_activity_index(ActivityNodeId(5)).unwrap();
    assert_eq!(i, 1);
    assert_eq!(g.activity_nodes[i].node.priority, 9);

    let m = g.add_mutex_node_with_id(mutex(2), MutexNodeId(3));
    assert_eq!(m.0, 3);
    let m2 = g.add_mutex_node(mutex(0));
    assert_eq!(m2.0, 4);
}

/// A running activity is never re-admitted mid-run, and consumption by
/// an earlier pass changes readiness for later passes only through the
/// token counts.
#[test]
fn no_second_execution_while_running() {
    let mut g = Graph::default();
    let a = g.add_activity_node(activity(0, 3));
    let r = g.add_mutex_node(mutex(2));
    g.connect(a, r, Direction::MutexToActivity, false);
    g.tick_a_with_seed(0);
    assert_eq!(remaining(&g, a), 3);
    assert_eq!(value(&g, r), 1);
    g.tick_a_with_seed(1);
    // still running: no second token consumed
    assert_eq!(remaining(&g, a), 3);
    assert_eq!(value(&g, r), 1);
}

/// Settlement saturates a token count at the top of its range instead
/// of overflowing.
#[test]
fn settlement_saturates_at_max() {
    let mut g = Graph::default();
    let mut a = activity(0, 1);
    a.remaining_duration = 1;
    let ida = g.add_activity_node(a);
    let r = g.add_mutex_node(mutex(u32::MAX));
    g.connect(ida, r, Direction::ActivityToMutex, false);
    g.tick_b();
    assert_eq!(remaining(&g, ida), 0);
    assert_eq!(value(&g, r), u32::MAX);
}

/// The queued-tick counter saturates instead of overflowing.
#[test]
fn queue_tick_saturates() {
    let mut g = Graph::default();
    g.set_remaining_ticks_to_run(i32::MAX);
    g.queue_tick();
    assert_eq!(g.get_remaining_ticks_to_run(), i32::MAX);
}

/// A cloned graph carries every node, connection and scheduler setting.
#[test]
fn clone_is_exact() {
    let mut g = Graph::default();
    let a = g.add_activity_node(activity(2, 3));
    let r = g.add_mutex_node(mutex(4));
    g.connect(a, r, Direction::TwoWay, false);
    g.set_remaining_ticks_to_run(7);
    let h = g.clone();
    assert_eq!(h.activity_nodes.len(), 1);
    assert_eq!(remaining(&h, a), 0);
    assert_eq!(h.activity_nodes[0].node.priority, 2);
    assert_eq!(value(&h, r), 4);
    assert!(h.is_connected(a, r, Direction::TwoWay));
    assert_eq!(h.get_remaining_ticks_to_run(), 7);
    assert_eq!(h.name, g.name);
}

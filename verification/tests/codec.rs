use tsyncs::activity_node::ActivityNode;
use tsyncs::connection::Direction;
use tsyncs::geom::Pos;
use tsyncs::graph::{ActivityNodeId, Graph, MutexNodeId};
use tsyncs::mutex_node::MutexNode;

fn remaining(g: &Graph, id: ActivityNodeId) -> u32 {
    let i = g.find_activity_index(id).unwrap();
    g.activity_nodes[i].node.remaining_duration
}

fn value(g: &Graph, id: MutexNodeId) -> u32 {
    let i = g.find_mutex_index(id).unwrap();
    g.mutex_nodes[i].node.value
}

/// Exporting and re-importing reproduces node values, durations,
/// priorities, positions and connection directions.
#[test]
fn round_trip_preserves_graph() {
    let mut g = Graph::default();
    let mut a1 = ActivityNode::new(Pos::new(300_000, 100_000));
    a1.task_name = String::from("Task 1");
    a1.activity_name = String::from("Activity 1");
    a1.priority = 3;
    a1.duration = 4;
    a1.remaining_duration = 2;
    let mut a2 = ActivityNode::new(Pos::new(-12_500, 7_050));
    a2.task_name = String::from("Task 2");
    a2.activity_name = String::from("Activity 2");
    a2.priority = 0;
    a2.duration = 1;
    let ida1 = g.add_activity_node(a1);
    let ida2 = g.add_activity_node(a2);
    let mut m1 = MutexNode::new(Pos::new(0, -999));
    m1.value = 7;
    let m2 = MutexNode::new(Pos::new(1_000, 2_000));
    let idm1 = g.add_mutex_node(m1);
    let idm2 = g.add_mutex_node(m2);
    g.connect(ida1, idm1, Direction::TwoWay, false);
    g.connect(ida1, idm2, Direction::ActivityToMutex, false);
    g.connect(ida2, idm1, Direction::MutexToActivity, false);

    let text = g.to_csv();
    let h = Graph::from_csv(text.as_str()).unwrap();

    assert_eq!(h.activity_nodes.len(), 2);
    assert_eq!(h.mutex_nodes.len(), 2);
    for (id, src) in [(ida1, 0usize), (ida2, 1usize)] {
        let i = h.find_activity_index(id).unwrap();
        let got = &h.activity_nodes[i].node;
        let want = &g.activity_nodes[src].node;
        assert_eq!(got.pos, want.pos);
        assert_eq!(got.task_name, want.task_name);
        assert_eq!(got.activity_name, want.activity_name);
        assert_eq!(got.priority, want.priority);
        assert_eq!(got.duration, want.duration);
        assert_eq!(got.remaining_duration, want.remaining_duration);
    }
    for id in [idm1, idm2] {
        let i = h.find_mutex_index(id).unwrap();
        let j = g.find_mutex_index(id).unwrap();
        assert_eq!(h.mutex_nodes[i].node.pos, g.mutex_nodes[j].node.pos);
        assert_eq!(h.mutex_nodes[i].node.value, g.mutex_nodes[j].node.value);
    }
    assert_eq!(h.connections.len(), g.connections.len());
    for d in [
        Direction::MutexToActivity,
        Direction::ActivityToMutex,
        Direction::TwoWay,
    ] {
        assert_eq!(h.is_connected(ida1, idm1, d), g.is_connected(ida1, idm1, d));
        assert_eq!(h.is_connected(ida1, idm2, d), g.is_connected(ida1, idm2, d));
        assert_eq!(h.is_connected(ida2, idm1, d), g.is_connected(ida2, idm1, d));
        assert_eq!(h.is_connected(ida2, idm2, d), g.is_connected(ida2, idm2, d));
    }
}

/// A `Task` line followed by a `Mutex` line that lists the same pair in
/// the other direction upgrades the record to `TwoWay`.
#[test]
fn import_merges_opposite_directions() {
    let text = "Task;0;0;1;T;A;0;2;0;5\nMutex;0;0;5;1;1\n";
    let g = Graph::from_csv(text).unwrap();
    assert_eq!(g.connections.len(), 1);
    assert!(g.is_connected(ActivityNodeId(1), MutexNodeId(5), Direction::TwoWay));
}

/// Tags are case-insensitive; unknown tags and short lines are skipped.
#[test]
fn import_skips_unknown_and_short_lines() {
    let text = "\
Type;Position X;Position Y;ID;Parameters...\n\
tAsK;1;2;0;Name;Act;1;3;0;\n\
Task;1;2\n\
nonsense;;;;\n\
\n\
MUTEX;4;5;2;9;\n";
    let g = Graph::from_csv(text).unwrap();
    assert_eq!(g.activity_nodes.len(), 1);
    assert_eq!(g.mutex_nodes.len(), 1);
    assert_eq!(remaining(&g, ActivityNodeId(0)), 0);
    assert_eq!(value(&g, MutexNodeId(2)), 9);
    assert_eq!(g.activity_nodes[0].node.duration, 3);
    assert_eq!(g.activity_nodes[0].node.priority, 1);
}

/// Fields are trimmed around the separators.
#[test]
fn import_trims_fields() {
    let text = "  task ; 1.5 ; -2 ; 3 ;  My Task ; An Activity ; 2 ; 4 ; 1 ;\n";
    let g = Graph::from_csv(text).unwrap();
    let i = g.find_activity_index(ActivityNodeId(3)).unwrap();
    let node = &g.activity_nodes[i].node;
    assert_eq!(node.pos, Pos::new(1_500, -2_000));
    assert_eq!(node.task_name, String::from("My Task"));
    assert_eq!(node.activity_name, String::from("An Activity"));
    assert_eq!(node.priority, 2);
    assert_eq!(node.duration, 4);
    assert_eq!(node.remaining_duration, 1);
}

/// Every numeric field reports its own line-numbered error.
#[test]
fn import_reports_field_errors() {
    let cases = [
        (
            "Task;x;0;0;T;A;0;1;0;\n",
            "Error while parsing Position X in line: 1",
        ),
        (
            "\nTask;0;y;0;T;A;0;1;0;\n",
            "Error while parsing Position Y in line: 2",
        ),
        (
            "Task;0;0;nope;T;A;0;1;0;\n",
            "Error while parsing ID in line: 1",
        ),
        (
            "Task;0;0;0;T;A;p;1;0;\n",
            "Error while parsing Priority in line: 1",
        ),
        (
            "Task;0;0;0;T;A;0;d;0;\n",
            "Error while parsing Duration in line: 1",
        ),
        (
            "Task;0;0;0;T;A;0;1;r;\n",
            "Error while parsing Remaining Duration in line: 1",
        ),
        (
            "Task;0;0;0;T;A;0;1;0;bad\n",
            "Error while parsing Activity Connection in line: 1",
        ),
        (
            "Mutex;0;0;0;v;\n",
            "Error while parsing Mutex Value in line: 1",
        ),
        (
            "Mutex;0;0;0;1;bad\n",
            "Error while parsing Activity Connection in line: 1",
        ),
    ];
    for (text, want) in cases {
        let err = match Graph::from_csv(text) {
            Ok(_) => panic!("import unexpectedly succeeded"),
            Err(e) => e,
        };
        assert_eq!(err, String::from(want));
    }
}

/// A numeric overflow in a counter field is a parse error, as it is for
/// the original field widths.
#[test]
fn import_rejects_overflow() {
    let text = "Mutex;0;0;0;4294967296;\n";
    let err = match Graph::from_csv(text) {
        Ok(_) => panic!("import unexpectedly succeeded"),
        Err(e) => e,
    };
    assert_eq!(err, String::from("Error while parsing Mutex Value in line: 1"));
}

/// An imported remaining duration larger than the duration is clamped,
/// keeping the node invariant.
#[test]
fn import_clamps_remaining_duration() {
    let text = "Task;0;0;0;T;A;0;3;9;\n";
    let g = Graph::from_csv(text).unwrap();
    assert_eq!(g.activity_nodes[0].node.duration, 3);
    assert_eq!(g.activity_nodes[0].node.remaining_duration, 3);
}

/// The exported headers are skipped on import (their quoted tags match
/// nothing), so an exported file never imports its own headers as data.
#[test]
fn export_headers_do_not_import() {
    let g = Graph::default();
    let text = g.to_csv();
    let h = Graph::from_csv(text.as_str()).unwrap();
    assert_eq!(h.activity_nodes.len(), 0);
    assert_eq!(h.mutex_nodes.len(), 0);
    assert_eq!(h.connections.len(), 0);
}

/// Fractional coordinates are written canonically and read back to the
/// same value.
#[test]
fn export_formats_coordinates() {
    let mut g = Graph::default();
    let mut m = MutexNode::new(Pos::new(1_500, -50));
    m.value = 1;
    g.add_mutex_node(m);
    let text = g.to_csv();
    assert!(text.contains("Mutex;1.5;-0.05;0;1;\n"));
}

/// Windows-style line endings are accepted.
#[test]
fn import_accepts_carriage_returns() {
    let text = "Task;0;0;4;T;A;1;2;0;\r\nMutex;0;0;9;3;4\r\n";
    let g = Graph::from_csv(text).unwrap();
    assert_eq!(remaining(&g, ActivityNodeId(4)), 0);
    assert_eq!(value(&g, MutexNodeId(9)), 3);
    assert!(g.is_connected(ActivityNodeId(4), MutexNodeId(9), Direction::MutexToActivity));
}

/// Importing never loses the prior graph: a failed import leaves only
/// an error, and the caller keeps whatever it had.
#[test]
fn failed_import_returns_error_only() {
    let r = Graph::from_csv("Task;broken;0;0;T;A;0;1;0;\n");
    assert!(r.is_err());
}

/// The allocators of an imported graph sit above every imported handle.
#[test]
fn import_bumps_allocators() {
    let text = "Task;0;0;10;T;A;0;1;0;\nMutex;0;0;7;0;\n";
    let mut g = Graph::from_csv(text).unwrap();
    let a = g.add_activity_node(ActivityNode::new(Pos::new(0, 0)));
    assert_eq!(a.0, 11);
    let m = g.add_mutex_node(MutexNode::new(Pos::new(0, 0)));
    assert_eq!(m.0, 8);
}

/// An empty text imports to an empty graph.
#[test]
fn import_empty_text() {
    let g = Graph::from_csv("").unwrap();
    assert_eq!(g.activity_nodes.len(), 0);
    assert_eq!(g.mutex_nodes.len(), 0);
    assert_eq!(g.connections.len(), 0);
}

/// Coordinates at the codec's limits: the largest representable value
/// is accepted, one past it is a parse error.
#[test]
fn coordinate_range_limits() {
    let ok = "Mutex;999999999999.999;-999999999999.999;0;1;\n";
    let g = Graph::from_csv(ok).unwrap();
    assert_eq!(g.mutex_nodes[0].node.pos, Pos::new(999_999_999_999_999, -999_999_999_999_999));

    let too_big = "Mutex;1000000000000;0;0;1;\n";
    let err = match Graph::from_csv(too_big) {
        Ok(_) => panic!("import unexpectedly succeeded"),
        Err(e) => e,
    };
    assert_eq!(err, String::from("Error while parsing Position X in line: 1"));
}

/// A fractional part needs one to three digits.
#[test]
fn coordinate_fraction_width() {
    let err = match Graph::from_csv("Mutex;1.2345;0;0;1;\n") {
        Ok(_) => panic!("import unexpectedly succeeded"),
        Err(e) => e,
    };
    assert_eq!(err, String::from("Error while parsing Position X in line: 1"));
    let g = Graph::from_csv("Mutex;1.234;0;0;1;\n").unwrap();
    assert_eq!(g.mutex_nodes[0].node.pos, Pos::new(1_234, 0));
}

/// The exporter does not escape fields, so a separator inside a name
/// shifts the later fields of its line; such names are excluded from
/// the round-trip law.
#[test]
fn separator_in_name_breaks_round_trip() {
    let mut g = Graph::default();
    let mut a = ActivityNode::new(Pos::new(0, 0));
    a.task_name = String::from("a;b");
    a.duration = 1;
    g.add_activity_node(a);
    let text = g.to_csv();
    match Graph::from_csv(text.as_str()) {
        Ok(h) => {
            assert!(h.activity_nodes.is_empty()
                || h.activity_nodes[0].node.task_name != String::from("a;b"));
        }
        Err(_) => {}
    }
}

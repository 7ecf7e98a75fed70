use vstd::prelude::*;
use vstd::string::*;

use crate::activity_node::ActivityNode;
use crate::connection::{Connection, Direction};
use crate::geom::Pos;
use crate::graph::{
    act_index_of, act_ids_unique, act_node_of, conn_index_of, conn_pairs_unique, has_act,
    has_conn, has_mutex, mutex_ids_unique, mutex_index_of, mutex_node_of, ActivityEntry,
    ActivityNodeId, ConnectionEntry, Graph, MutexEntry, MutexNodeId,
    DEFAULT_TICKS_PER_SECOND_MILLI,
};
use crate::mutex_node::MutexNode;
use crate::numbers::{
    coord_chars, first_index_of, spec_parse_coord, spec_parse_u64, u64_chars,
};

verus! {

// ----- the mathematical shape an import builds -----

/// One activity as the codec sees it.
pub struct ActModel {
    pub id: usize,
    pub x_milli: i64,
    pub y_milli: i64,
    pub task_name: Seq<char>,
    pub activity_name: Seq<char>,
    pub priority: u32,
    pub duration: u32,
    pub remaining_duration: u32,
}

/// One mutex as the codec sees it.
pub struct MutModel {
    pub id: usize,
    pub x_milli: i64,
    pub y_milli: i64,
    pub value: u32,
}

/// One connection record as the codec sees it; the animation automata
/// are not part of the persisted shape.
pub struct ConnModel {
    pub activity_id: usize,
    pub mutex_id: usize,
    pub direction: Direction,
}

/// The persisted shape of a whole graph.
pub struct GraphModel {
    pub acts: Seq<ActModel>,
    pub muts: Seq<MutModel>,
    pub conns: Seq<ConnModel>,
    pub next_activity_id: usize,
    pub next_mutex_id: usize,
}

pub open spec fn proj_act(e: ActivityEntry) -> ActModel {
    ActModel {
        id: e.id.0,
        x_milli: e.node.pos.x_milli,
        y_milli: e.node.pos.y_milli,
        task_name: e.node.task_name@,
        activity_name: e.node.activity_name@,
        priority: e.node.priority,
        duration: e.node.duration,
        remaining_duration: e.node.remaining_duration,
    }
}

pub open spec fn proj_mut(e: MutexEntry) -> MutModel {
    MutModel {
        id: e.id.0,
        x_milli: e.node.pos.x_milli,
        y_milli: e.node.pos.y_milli,
        value: e.node.value,
    }
}

pub open spec fn proj_conn(e: ConnectionEntry) -> ConnModel {
    ConnModel {
        activity_id: e.activity_id.0,
        mutex_id: e.mutex_id.0,
        direction: e.connection.direction,
    }
}

/// The persisted shape of a graph value.
pub open spec fn proj_graph(g: Graph) -> GraphModel {
    GraphModel {
        acts: g.activity_nodes@.map_values(|e: ActivityEntry| proj_act(e)),
        muts: g.mutex_nodes@.map_values(|e: MutexEntry| proj_mut(e)),
        conns: g.connections@.map_values(|e: ConnectionEntry| proj_conn(e)),
        next_activity_id: g.next_activity_id.0,
        next_mutex_id: g.next_mutex_id.0,
    }
}

pub open spec fn empty_model() -> GraphModel {
    GraphModel {
        acts: Seq::empty(),
        muts: Seq::empty(),
        conns: Seq::empty(),
        next_activity_id: 0,
        next_mutex_id: 0,
    }
}

pub open spec fn model_has_act(s: Seq<ActModel>, id: usize) -> bool {
    exists|i: int| 0 <= i < s.len() && (#[trigger] s[i]).id == id
}

pub open spec fn model_act_index(s: Seq<ActModel>, id: usize) -> int {
    choose|i: int| 0 <= i < s.len() && (#[trigger] s[i]).id == id
}

pub open spec fn model_has_mut(s: Seq<MutModel>, id: usize) -> bool {
    exists|i: int| 0 <= i < s.len() && (#[trigger] s[i]).id == id
}

pub open spec fn model_mut_index(s: Seq<MutModel>, id: usize) -> int {
    choose|i: int| 0 <= i < s.len() && (#[trigger] s[i]).id == id
}

pub open spec fn model_has_conn(s: Seq<ConnModel>, aid: usize, mid: usize) -> bool {
    exists|i: int|
        0 <= i < s.len() && (#[trigger] s[i]).activity_id == aid && s[i].mutex_id == mid
}

pub open spec fn model_conn_index(s: Seq<ConnModel>, aid: usize, mid: usize) -> int {
    choose|i: int|
        0 <= i < s.len() && (#[trigger] s[i]).activity_id == aid && s[i].mutex_id == mid
}

/// Insert an activity under a chosen id, replacing in place or
/// appending, and bump the allocator; the shape-level mirror of the
/// registry operation.
pub open spec fn model_add_act(m: GraphModel, a: ActModel) -> GraphModel {
    let acts = if model_has_act(m.acts, a.id) {
        m.acts.update(model_act_index(m.acts, a.id), a)
    } else {
        m.acts.push(a)
    };
    let next = if a.id + 1 > m.next_activity_id {
        (a.id + 1) as usize
    } else {
        m.next_activity_id
    };
    GraphModel { acts, next_activity_id: next, ..m }
}

pub open spec fn model_add_mut(m: GraphModel, a: MutModel) -> GraphModel {
    let muts = if model_has_mut(m.muts, a.id) {
        m.muts.update(model_mut_index(m.muts, a.id), a)
    } else {
        m.muts.push(a)
    };
    let next = if a.id + 1 > m.next_mutex_id {
        (a.id + 1) as usize
    } else {
        m.next_mutex_id
    };
    GraphModel { muts, next_mutex_id: next, ..m }
}

/// Add a direction between a pair: an existing record with the other
/// direction becomes `TwoWay`, an existing record with the same
/// direction is left alone, a missing record is appended.
pub open spec fn model_connect(m: GraphModel, aid: usize, mid: usize, dir: Direction) -> GraphModel {
    let conns = if model_has_conn(m.conns, aid, mid) {
        let i = model_conn_index(m.conns, aid, mid);
        if m.conns[i].direction == dir {
            m.conns
        } else {
            m.conns.update(
                i,
                (ConnModel { activity_id: aid, mutex_id: mid, direction: Direction::TwoWay }),
            )
        }
    } else {
        m.conns.push((ConnModel { activity_id: aid, mutex_id: mid, direction: dir }))
    };
    GraphModel { conns, ..m }
}

// ----- text shape: lines, fields, trimming, case folding -----

pub open spec fn is_space(c: char) -> bool {
    c as u32 == 32 || c as u32 == 9 || c as u32 == 13 || c as u32 == 11 || c as u32 == 12
}

pub open spec fn trim_left(s: Seq<char>) -> Seq<char>
    decreases s.len(),
{
    if s.len() > 0 && is_space(s[0]) {
        trim_left(s.drop_first())
    } else {
        s
    }
}

pub open spec fn trim_right(s: Seq<char>) -> Seq<char>
    decreases s.len(),
{
    if s.len() > 0 && is_space(s.last()) {
        trim_right(s.drop_last())
    } else {
        s
    }
}

/// A field with surrounding whitespace removed.
pub open spec fn spec_trim(s: Seq<char>) -> Seq<char> {
    trim_right(trim_left(s))
}

/// The fields of a line, split on the separator and trimmed; splitting
/// always yields at least one (possibly empty) field.
pub open spec fn line_fields(line: Seq<char>) -> Seq<Seq<char>>
    decreases line.len(),
{
    let di = first_index_of(line, ';');
    if !(0 <= di < line.len()) {
        seq![spec_trim(line)]
    } else {
        seq![spec_trim(line.subrange(0, di))] + line_fields(
            line.subrange(di + 1, line.len() as int),
        )
    }
}

/// Case-insensitive match of one character against a lower-case
/// reference character (plain letter folding).
pub open spec fn eq_ci(a: char, b: char) -> bool {
    a == b || (65 <= a as u32 <= 90 && a as u32 + 32 == b as u32)
}

/// Case-insensitive match of a field against a lower-case tag.
pub open spec fn tag_is(s: Seq<char>, tag: Seq<char>) -> bool {
    s.len() == tag.len() && forall|i: int| 0 <= i < s.len() ==> eq_ci(#[trigger] s[i], tag[i])
}

// ----- the import, line by line -----

/// A line-numbered, field-specific import error message.
pub open spec fn err_msg(prefix: Seq<char>, line_no: nat) -> Seq<char> {
    prefix + u64_chars(line_no)
}

/// The id fields at the tail of a `Task` line: each nonempty field must
/// parse as a mutex id, and each connects that mutex as an input of the
/// activity.
pub open spec fn import_task_tail(
    m: GraphModel,
    vals: Seq<Seq<char>>,
    k: int,
    aid: usize,
    line_no: nat,
) -> Result<GraphModel, Seq<char>>
    decreases vals.len() - k,
{
    if k < 0 || k >= vals.len() {
        Ok(m)
    } else if vals[k].len() == 0 {
        import_task_tail(m, vals, k + 1, aid, line_no)
    } else {
        match spec_parse_u64(vals[k]) {
            Some(v) => import_task_tail(
                model_connect(m, aid, v as usize, Direction::ActivityToMutex),
                vals,
                k + 1,
                aid,
                line_no,
            ),
            None => Err(err_msg("Error while parsing Activity Connection in line: "@, line_no)),
        }
    }
}

/// The id fields at the tail of a `Mutex` line.
pub open spec fn import_mutex_tail(
    m: GraphModel,
    vals: Seq<Seq<char>>,
    k: int,
    mid: usize,
    line_no: nat,
) -> Result<GraphModel, Seq<char>>
    decreases vals.len() - k,
{
    if k < 0 || k >= vals.len() {
        Ok(m)
    } else if vals[k].len() == 0 {
        import_mutex_tail(m, vals, k + 1, mid, line_no)
    } else {
        match spec_parse_u64(vals[k]) {
            Some(v) => import_mutex_tail(
                model_connect(m, v as usize, mid, Direction::MutexToActivity),
                vals,
                k + 1,
                mid,
                line_no,
            ),
            None => Err(err_msg("Error while parsing Activity Connection in line: "@, line_no)),
        }
    }
}

/// An id field must parse and leave room for the allocator to move past
/// it.
pub open spec fn parse_id(s: Seq<char>) -> Option<usize> {
    match spec_parse_u64(s) {
        Some(v) => if v < usize::MAX as u64 {
            Some(v as usize)
        } else {
            None
        },
        None => None,
    }
}

pub open spec fn parse_u32_field(s: Seq<char>) -> Option<u32> {
    match spec_parse_u64(s) {
        Some(v) => if v <= u32::MAX as u64 {
            Some(v as u32)
        } else {
            None
        },
        None => None,
    }
}

/// One `Task` line: positional fields, then connected mutex ids. The
/// remaining duration is clamped to the duration, keeping the node
/// invariant.
pub open spec fn import_task_line(
    m: GraphModel,
    vals: Seq<Seq<char>>,
    line_no: nat,
) -> Result<GraphModel, Seq<char>> {
    match spec_parse_coord(vals[1]) {
        None => Err(err_msg("Error while parsing Position X in line: "@, line_no)),
        Some(x) => match spec_parse_coord(vals[2]) {
            None => Err(err_msg("Error while parsing Position Y in line: "@, line_no)),
            Some(y) => match parse_id(vals[3]) {
                None => Err(err_msg("Error while parsing ID in line: "@, line_no)),
                Some(id) => match parse_u32_field(vals[6]) {
                    None => Err(err_msg("Error while parsing Priority in line: "@, line_no)),
                    Some(priority) => match parse_u32_field(vals[7]) {
                        None => Err(err_msg("Error while parsing Duration in line: "@, line_no)),
                        Some(duration) => match parse_u32_field(vals[8]) {
                            None => Err(
                                err_msg(
                                    "Error while parsing Remaining Duration in line: "@,
                                    line_no,
                                ),
                            ),
                            Some(rem) => {
                                let a = ActModel {
                                    id,
                                    x_milli: x as i64,
                                    y_milli: y as i64,
                                    task_name: vals[4],
                                    activity_name: vals[5],
                                    priority,
                                    duration,
                                    remaining_duration: if rem <= duration {
                                        rem
                                    } else {
                                        duration
                                    },
                                };
                                import_task_tail(model_add_act(m, a), vals, 9, id, line_no)
                            },
                        },
                    },
                },
            },
        },
    }
}

/// One `Mutex` line.
pub open spec fn import_mutex_line(
    m: GraphModel,
    vals: Seq<Seq<char>>,
    line_no: nat,
) -> Result<GraphModel, Seq<char>> {
    match spec_parse_coord(vals[1]) {
        None => Err(err_msg("Error while parsing Position X in line: "@, line_no)),
        Some(x) => match spec_parse_coord(vals[2]) {
            None => Err(err_msg("Error while parsing Position Y in line: "@, line_no)),
            Some(y) => match parse_id(vals[3]) {
                None => Err(err_msg("Error while parsing ID in line: "@, line_no)),
                Some(id) => match parse_u32_field(vals[4]) {
                    None => Err(err_msg("Error while parsing Mutex Value in line: "@, line_no)),
                    Some(value) => {
                        let a = MutModel { id, x_milli: x as i64, y_milli: y as i64, value };
                        import_mutex_tail(model_add_mut(m, a), vals, 5, id, line_no)
                    },
                },
            },
        },
    }
}

/// One line of the persisted text: a `Task` or `Mutex` line with enough
/// fields is imported; anything else is skipped without complaint.
pub open spec fn import_line(
    m: GraphModel,
    line: Seq<char>,
    line_no: nat,
) -> Result<GraphModel, Seq<char>> {
    let vals = line_fields(line);
    if tag_is(vals[0], "task"@) && vals.len() >= 9 {
        import_task_line(m, vals, line_no)
    } else if tag_is(vals[0], "mutex"@) && vals.len() >= 5 {
        import_mutex_line(m, vals, line_no)
    } else {
        Ok(m)
    }
}

/// A trailing carriage return belongs to the line break, not the line.
pub open spec fn strip_cr(line: Seq<char>) -> Seq<char> {
    if line.len() > 0 && line.last() == '\r' {
        line.drop_last()
    } else {
        line
    }
}

/// The whole text, line by line; the first failing line aborts the
/// import with its message.
pub open spec fn import_lines(
    m: GraphModel,
    s: Seq<char>,
    line_no: nat,
) -> Result<GraphModel, Seq<char>>
    decreases s.len(),
{
    if s.len() == 0 {
        Ok(m)
    } else {
        let di = first_index_of(s, '\n');
        let line = strip_cr(
            if !(0 <= di < s.len()) {
                s
            } else {
                s.subrange(0, di)
            },
        );
        match import_line(m, line, line_no) {
            Err(e) => Err(e),
            Ok(m2) => if !(0 <= di < s.len()) {
                Ok(m2)
            } else {
                import_lines(m2, s.subrange(di + 1, s.len() as int), line_no + 1)
            },
        }
    }
}

/// The persisted shape that a text imports to, or the error message.
pub open spec fn spec_import(text: Seq<char>) -> Result<GraphModel, Seq<char>> {
    import_lines(empty_model(), text, 1)
}

// ----- the export -----

/// The mutex ids listed on an activity's `Task` line: every record of
/// the activity that carries tokens out of it, in table order.
pub open spec fn a2m_ids(conns: Seq<ConnectionEntry>, aid: ActivityNodeId) -> Seq<usize>
    decreases conns.len(),
{
    if conns.len() == 0 {
        Seq::empty()
    } else {
        let rest = a2m_ids(conns.drop_last(), aid);
        let e = conns.last();
        if e.activity_id == aid && e.connection.direction != Direction::MutexToActivity {
            rest.push(e.mutex_id.0)
        } else {
            rest
        }
    }
}

/// The activity ids listed on a mutex's `Mutex` line: every record of
/// the mutex that carries tokens into an activity, in table order.
pub open spec fn m2a_ids(conns: Seq<ConnectionEntry>, mid: MutexNodeId) -> Seq<usize>
    decreases conns.len(),
{
    if conns.len() == 0 {
        Seq::empty()
    } else {
        let rest = m2a_ids(conns.drop_last(), mid);
        let e = conns.last();
        if e.mutex_id == mid && e.connection.direction != Direction::ActivityToMutex {
            rest.push(e.activity_id.0)
        } else {
            rest
        }
    }
}

/// Ids joined by the separator.
pub open spec fn join_ids(ids: Seq<usize>) -> Seq<char>
    decreases ids.len(),
{
    if ids.len() == 0 {
        Seq::empty()
    } else if ids.len() == 1 {
        u64_chars(ids[0] as nat)
    } else {
        join_ids(ids.drop_last()) + ";"@ + u64_chars(ids.last() as nat)
    }
}

pub open spec fn sep_char() -> Seq<char> {
    ";"@
}

pub open spec fn nl_char() -> Seq<char> {
    "\n"@
}

/// One exported `Task` line, without its line break.
pub open spec fn task_line_body(e: ActivityEntry, ids: Seq<usize>) -> Seq<char> {
    "Task"@ + sep_char() + coord_chars(e.node.pos.x_milli as int) + sep_char() + coord_chars(
        e.node.pos.y_milli as int,
    ) + sep_char() + u64_chars(e.id.0 as nat) + sep_char() + e.node.task_name@ + sep_char()
        + e.node.activity_name@ + sep_char() + u64_chars(e.node.priority as nat) + sep_char()
        + u64_chars(e.node.duration as nat) + sep_char() + u64_chars(
        e.node.remaining_duration as nat,
    ) + sep_char() + join_ids(ids)
}

/// One exported `Task` line.
pub open spec fn task_line_chars(e: ActivityEntry, ids: Seq<usize>) -> Seq<char> {
    task_line_body(e, ids) + nl_char()
}

/// One exported `Mutex` line, without its line break.
pub open spec fn mutex_line_body(e: MutexEntry, ids: Seq<usize>) -> Seq<char> {
    "Mutex"@ + sep_char() + coord_chars(e.node.pos.x_milli as int) + sep_char() + coord_chars(
        e.node.pos.y_milli as int,
    ) + sep_char() + u64_chars(e.id.0 as nat) + sep_char() + u64_chars(e.node.value as nat)
        + sep_char() + join_ids(ids)
}

/// One exported `Mutex` line.
pub open spec fn mutex_line_chars(e: MutexEntry, ids: Seq<usize>) -> Seq<char> {
    mutex_line_body(e, ids) + nl_char()
}

/// All `Task` lines, in registry order.
pub open spec fn task_lines_chars(
    acts: Seq<ActivityEntry>,
    conns: Seq<ConnectionEntry>,
) -> Seq<char>
    decreases acts.len(),
{
    if acts.len() == 0 {
        Seq::empty()
    } else {
        task_lines_chars(acts.drop_last(), conns) + task_line_chars(
            acts.last(),
            a2m_ids(conns, acts.last().id),
        )
    }
}

/// All `Mutex` lines, in registry order.
pub open spec fn mutex_lines_chars(
    muts: Seq<MutexEntry>,
    conns: Seq<ConnectionEntry>,
) -> Seq<char>
    decreases muts.len(),
{
    if muts.len() == 0 {
        Seq::empty()
    } else {
        mutex_lines_chars(muts.drop_last(), conns) + mutex_line_chars(
            muts.last(),
            m2a_ids(conns, muts.last().id),
        )
    }
}

/// The whole exported text: a general header, a quoted `Task` header
/// (quoted so an import skips it), the task lines, a quoted `Mutex`
/// header, the mutex lines.
pub open spec fn export_chars(g: Graph) -> Seq<char> {
    "Type;Position X;Position Y;ID;Parameters...\n"@
        + "\"Task\";Position X;Position Y;ID;Task Name;Activity Name;Priority;Duration;Remaining Duration;Connected Mutex IDs...\n"@
        + task_lines_chars(g.activity_nodes@, g.connections@)
        + "\"Mutex\";Position X;Position Y;ID;Mutex Value;Connected Task IDs...\n"@
        + mutex_lines_chars(g.mutex_nodes@, g.connections@)
}

impl Graph {
    /// The mutex ids to list on an activity's exported line.
    fn collect_a2m_ids(&self, aid: ActivityNodeId) -> (ids: Vec<usize>)
        ensures
            ids@ == a2m_ids(self.connections@, aid),
    {
        let ghost conns = self.connections@;
        let mut ids: Vec<usize> = Vec::new();
        let m = self.connections.len();
        for j in 0..m
            invariant
                m == self.connections@.len(),
                conns == self.connections@,
                ids@ == a2m_ids(conns.subrange(0, j as int), aid),
        {
            proof {
                assert(conns.subrange(0, j as int + 1).drop_last() =~= conns.subrange(
                    0,
                    j as int,
                ));
                assert(conns.subrange(0, j as int + 1).last() == conns[j as int]);
            }
            let e = &self.connections[j];
            if e.activity_id.0 == aid.0 && e.connection.direction != Direction::MutexToActivity {
                ids.push(e.mutex_id.0);
            }
        }
        proof {
            assert(conns.subrange(0, m as int) =~= conns);
        }
        ids
    }

    /// The activity ids to list on a mutex's exported line.
    fn collect_m2a_ids(&self, mid: MutexNodeId) -> (ids: Vec<usize>)
        ensures
            ids@ == m2a_ids(self.connections@, mid),
    {
        let ghost conns = self.connections@;
        let mut ids: Vec<usize> = Vec::new();
        let m = self.connections.len();
        for j in 0..m
            invariant
                m == self.connections@.len(),
                conns == self.connections@,
                ids@ == m2a_ids(conns.subrange(0, j as int), mid),
        {
            proof {
                assert(conns.subrange(0, j as int + 1).drop_last() =~= conns.subrange(
                    0,
                    j as int,
                ));
                assert(conns.subrange(0, j as int + 1).last() == conns[j as int]);
            }
            let e = &self.connections[j];
            if e.mutex_id.0 == mid.0 && e.connection.direction != Direction::ActivityToMutex {
                ids.push(e.activity_id.0);
            }
        }
        proof {
            assert(conns.subrange(0, m as int) =~= conns);
        }
        ids
    }

    /// Append the joined id list to a line under construction.
    fn append_joined_ids(line: &mut String, ids: &Vec<usize>)
        ensures
            final(line)@ == old(line)@ + join_ids(ids@),
    {
        let ghost base = old(line)@;
        let idn = ids.len();
        for k in 0..idn
            invariant
                idn == ids@.len(),
                line@ == base + join_ids(ids@.subrange(0, k as int)),
        {
            proof {
                assert(ids@.subrange(0, k as int + 1).drop_last() =~= ids@.subrange(0, k as int));
                assert(ids@.subrange(0, k as int + 1).last() == ids@[k as int]);
            }
            if k > 0 {
                line.append(";");
            }
            let v_str = crate::numbers::u64_to_string(ids[k] as u64);
            line.append(v_str.as_str());
            proof {
                assert(line@ =~= base + join_ids(ids@.subrange(0, k as int + 1)));
            }
        }
        proof {
            assert(ids@.subrange(0, idn as int) =~= ids@);
        }
    }

    /// One activity's exported `Task` line.
    fn task_line_string(&self, i: usize) -> (s: String)
        requires
            self.wf_nodes(),
            i < self.activity_nodes@.len(),
        ensures
            s@ == task_line_chars(
                self.activity_nodes@[i as int],
                a2m_ids(self.connections@, self.activity_nodes@[i as int].id),
            ),
    {
        let aid = self.activity_nodes[i].id;
        let ids = self.collect_a2m_ids(aid);
        let mut line = String::from_str("Task");
        line.append(";");
        let x_str = crate::numbers::coord_to_string(self.activity_nodes[i].node.pos.x_milli);
        line.append(x_str.as_str());
        line.append(";");
        let y_str = crate::numbers::coord_to_string(self.activity_nodes[i].node.pos.y_milli);
        line.append(y_str.as_str());
        line.append(";");
        let id_str = crate::numbers::u64_to_string(aid.0 as u64);
        line.append(id_str.as_str());
        line.append(";");
        line.append(self.activity_nodes[i].node.task_name.as_str());
        line.append(";");
        line.append(self.activity_nodes[i].node.activity_name.as_str());
        line.append(";");
        let prio_str = crate::numbers::u64_to_string(self.activity_nodes[i].node.priority as u64);
        line.append(prio_str.as_str());
        line.append(";");
        let dur_str = crate::numbers::u64_to_string(self.activity_nodes[i].node.duration as u64);
        line.append(dur_str.as_str());
        line.append(";");
        let rem_str = crate::numbers::u64_to_string(
            self.activity_nodes[i].node.remaining_duration as u64,
        );
        line.append(rem_str.as_str());
        line.append(";");
        Self::append_joined_ids(&mut line, &ids);
        line.append("\n");
        line
    }

    /// One mutex's exported `Mutex` line.
    fn mutex_line_string(&self, i: usize) -> (s: String)
        requires
            self.wf_nodes(),
            i < self.mutex_nodes@.len(),
        ensures
            s@ == mutex_line_chars(
                self.mutex_nodes@[i as int],
                m2a_ids(self.connections@, self.mutex_nodes@[i as int].id),
            ),
    {
        let mid = self.mutex_nodes[i].id;
        let ids = self.collect_m2a_ids(mid);
        let mut line = String::from_str("Mutex");
        line.append(";");
        let x_str = crate::numbers::coord_to_string(self.mutex_nodes[i].node.pos.x_milli);
        line.append(x_str.as_str());
        line.append(";");
        let y_str = crate::numbers::coord_to_string(self.mutex_nodes[i].node.pos.y_milli);
        line.append(y_str.as_str());
        line.append(";");
        let id_str = crate::numbers::u64_to_string(mid.0 as u64);
        line.append(id_str.as_str());
        line.append(";");
        let val_str = crate::numbers::u64_to_string(self.mutex_nodes[i].node.value as u64);
        line.append(val_str.as_str());
        line.append(";");
        Self::append_joined_ids(&mut line, &ids);
        line.append("\n");
        line
    }

    /// Serialize the whole graph to the line-oriented,
    /// semicolon-delimited text format: one `Task` line per activity
    /// with the mutexes it feeds, one `Mutex` line per mutex with the
    /// activities it feeds.
    pub fn to_csv(&self) -> (s: String)
        requires
            self.wf_nodes(),
        ensures
            s@ == export_chars(*self),
    {
        let ghost acts = self.activity_nodes@;
        let ghost muts = self.mutex_nodes@;
        let ghost conns = self.connections@;
        let ghost head = "Type;Position X;Position Y;ID;Parameters...\n"@
            + "\"Task\";Position X;Position Y;ID;Task Name;Activity Name;Priority;Duration;Remaining Duration;Connected Mutex IDs...\n"@;
        let mut out = String::from_str("Type;Position X;Position Y;ID;Parameters...\n");
        out.append(
            "\"Task\";Position X;Position Y;ID;Task Name;Activity Name;Priority;Duration;Remaining Duration;Connected Mutex IDs...\n",
        );
        let n = self.activity_nodes.len();
        for i in 0..n
            invariant
                self.wf_nodes(),
                n == self.activity_nodes@.len(),
                acts == self.activity_nodes@,
                conns == self.connections@,
                out@ == head + task_lines_chars(acts.subrange(0, i as int), conns),
        {
            let line = self.task_line_string(i);
            out.append(line.as_str());
            proof {
                assert(acts.subrange(0, i as int + 1).drop_last() =~= acts.subrange(0, i as int));
                assert(acts.subrange(0, i as int + 1).last() == acts[i as int]);
                assert(out@ =~= head + task_lines_chars(acts.subrange(0, i as int + 1), conns));
            }
        }
        proof {
            assert(acts.subrange(0, n as int) =~= acts);
        }
        out.append("\"Mutex\";Position X;Position Y;ID;Mutex Value;Connected Task IDs...\n");
        let ghost head2 = head + task_lines_chars(acts, conns)
            + "\"Mutex\";Position X;Position Y;ID;Mutex Value;Connected Task IDs...\n"@;
        let mn = self.mutex_nodes.len();
        for i in 0..mn
            invariant
                self.wf_nodes(),
                mn == self.mutex_nodes@.len(),
                muts == self.mutex_nodes@,
                conns == self.connections@,
                out@ == head2 + mutex_lines_chars(muts.subrange(0, i as int), conns),
        {
            let line = self.mutex_line_string(i);
            out.append(line.as_str());
            proof {
                assert(muts.subrange(0, i as int + 1).drop_last() =~= muts.subrange(0, i as int));
                assert(muts.subrange(0, i as int + 1).last() == muts[i as int]);
                assert(out@ =~= head2 + mutex_lines_chars(muts.subrange(0, i as int + 1), conns));
            }
        }
        proof {
            assert(muts.subrange(0, mn as int) =~= muts);
            assert(out@ =~= export_chars(*self));
        }
        out
    }
}

// ----- the import, executable side -----

proof fn lemma_trim_left_range(s: Seq<char>, k: int)
    requires
        0 <= k <= s.len(),
        forall|j: int| 0 <= j < k ==> is_space(s[j]),
        k == s.len() || !is_space(s[k]),
    ensures
        trim_left(s) == s.subrange(k, s.len() as int),
    decreases s.len(),
{
    if s.len() > 0 && is_space(s[0]) {
        assert(k >= 1);
        let t = s.drop_first();
        assert forall|j: int| 0 <= j < k - 1 implies is_space(t[j]) by {
            assert(t[j] == s[j + 1]);
        }
        if k < s.len() {
            assert(t[k - 1] == s[k]);
        }
        lemma_trim_left_range(t, k - 1);
        assert(t.subrange(k - 1, t.len() as int) =~= s.subrange(k, s.len() as int));
    } else {
        assert(k == 0);
        assert(s.subrange(0, s.len() as int) =~= s);
    }
}

proof fn lemma_trim_right_range(s: Seq<char>, k: int)
    requires
        0 <= k <= s.len(),
        forall|j: int| k <= j < s.len() ==> is_space(s[j]),
        k == 0 || !is_space(s[k - 1]),
    ensures
        trim_right(s) == s.subrange(0, k),
    decreases s.len(),
{
    if s.len() > 0 && is_space(s.last()) {
        assert(k < s.len());
        let t = s.drop_last();
        assert forall|j: int| k <= j < t.len() implies is_space(t[j]) by {
            assert(t[j] == s[j]);
        }
        if k > 0 {
            assert(t[k - 1] == s[k - 1]);
        }
        lemma_trim_right_range(t, k);
        assert(t.subrange(0, k) =~= s.subrange(0, k));
    } else {
        assert(k == s.len());
        assert(s.subrange(0, s.len() as int) =~= s);
    }
}

/// The shape-level activity lookup agrees with the registry's.
proof fn lemma_model_lookup_act(acts: Seq<ActivityEntry>, id: ActivityNodeId)
    requires
        act_ids_unique(acts),
    ensures
        model_has_act(acts.map_values(|e: ActivityEntry| proj_act(e)), id.0) == has_act(acts, id),
        has_act(acts, id) ==> model_act_index(
            acts.map_values(|e: ActivityEntry| proj_act(e)),
            id.0,
        ) == act_index_of(acts, id),
{
    let pacts = acts.map_values(|e: ActivityEntry| proj_act(e));
    if has_act(acts, id) {
        let w = act_index_of(acts, id);
        assert(0 <= w < acts.len() && acts[w].id == id);
        assert(pacts[w].id == id.0);
        assert(model_has_act(pacts, id.0));
        let w2 = model_act_index(pacts, id.0);
        assert(0 <= w2 < pacts.len() && pacts[w2].id == id.0);
        assert(acts[w2].id.0 == id.0);
        assert(acts[w2].id == id) by {
            assert(acts[w2].id == ActivityNodeId(acts[w2].id.0));
        }
        if w2 < w {
            assert(acts[w2].id != acts[w].id);
        } else if w2 > w {
            assert(acts[w].id != acts[w2].id);
        }
    }
    if model_has_act(pacts, id.0) {
        let w = model_act_index(pacts, id.0);
        assert(0 <= w < pacts.len() && pacts[w].id == id.0);
        assert(acts[w].id == id) by {
            assert(acts[w].id == ActivityNodeId(acts[w].id.0));
        }
        assert(has_act(acts, id));
    }
}

/// The shape-level mutex lookup agrees with the registry's.
proof fn lemma_model_lookup_mut(muts: Seq<MutexEntry>, id: MutexNodeId)
    requires
        mutex_ids_unique(muts),
    ensures
        model_has_mut(muts.map_values(|e: MutexEntry| proj_mut(e)), id.0) == has_mutex(muts, id),
        has_mutex(muts, id) ==> model_mut_index(
            muts.map_values(|e: MutexEntry| proj_mut(e)),
            id.0,
        ) == mutex_index_of(muts, id),
{
    let pmuts = muts.map_values(|e: MutexEntry| proj_mut(e));
    if has_mutex(muts, id) {
        let w = mutex_index_of(muts, id);
        assert(0 <= w < muts.len() && muts[w].id == id);
        assert(pmuts[w].id == id.0);
        assert(model_has_mut(pmuts, id.0));
        let w2 = model_mut_index(pmuts, id.0);
        assert(0 <= w2 < pmuts.len() && pmuts[w2].id == id.0);
        assert(muts[w2].id == id) by {
            assert(muts[w2].id == MutexNodeId(muts[w2].id.0));
        }
        if w2 < w {
            assert(muts[w2].id != muts[w].id);
        } else if w2 > w {
            assert(muts[w].id != muts[w2].id);
        }
    }
    if model_has_mut(pmuts, id.0) {
        let w = model_mut_index(pmuts, id.0);
        assert(0 <= w < pmuts.len() && pmuts[w].id == id.0);
        assert(muts[w].id == id) by {
            assert(muts[w].id == MutexNodeId(muts[w].id.0));
        }
        assert(has_mutex(muts, id));
    }
}

/// The shape-level pair lookup agrees with the connection table's.
proof fn lemma_model_lookup_conn(
    conns: Seq<ConnectionEntry>,
    aid: ActivityNodeId,
    mid: MutexNodeId,
)
    requires
        conn_pairs_unique(conns),
    ensures
        model_has_conn(conns.map_values(|e: ConnectionEntry| proj_conn(e)), aid.0, mid.0)
            == has_conn(conns, aid, mid),
        has_conn(conns, aid, mid) ==> model_conn_index(
            conns.map_values(|e: ConnectionEntry| proj_conn(e)),
            aid.0,
            mid.0,
        ) == conn_index_of(conns, aid, mid),
{
    let pconns = conns.map_values(|e: ConnectionEntry| proj_conn(e));
    if has_conn(conns, aid, mid) {
        let w = conn_index_of(conns, aid, mid);
        assert(0 <= w < conns.len() && conns[w].activity_id == aid && conns[w].mutex_id == mid);
        assert(pconns[w].activity_id == aid.0 && pconns[w].mutex_id == mid.0);
        assert(model_has_conn(pconns, aid.0, mid.0));
        let w2 = model_conn_index(pconns, aid.0, mid.0);
        assert(0 <= w2 < pconns.len() && pconns[w2].activity_id == aid.0 && pconns[w2].mutex_id
            == mid.0);
        assert(conns[w2].activity_id == aid && conns[w2].mutex_id == mid) by {
            assert(conns[w2].activity_id == ActivityNodeId(conns[w2].activity_id.0));
            assert(conns[w2].mutex_id == MutexNodeId(conns[w2].mutex_id.0));
        }
        if w2 != w {
            if w2 < w {
                assert(!(conns[w2].activity_id == conns[w].activity_id && conns[w2].mutex_id
                    == conns[w].mutex_id));
            } else {
                assert(!(conns[w].activity_id == conns[w2].activity_id && conns[w].mutex_id
                    == conns[w2].mutex_id));
            }
        }
    }
    if model_has_conn(pconns, aid.0, mid.0) {
        let w = model_conn_index(pconns, aid.0, mid.0);
        assert(0 <= w < pconns.len() && pconns[w].activity_id == aid.0 && pconns[w].mutex_id
            == mid.0);
        assert(conns[w].activity_id == aid && conns[w].mutex_id == mid) by {
            assert(conns[w].activity_id == ActivityNodeId(conns[w].activity_id.0));
            assert(conns[w].mutex_id == MutexNodeId(conns[w].mutex_id.0));
        }
        assert(has_conn(conns, aid, mid));
    }
}

/// A `connect` without automaton updates acts on the persisted shape
/// exactly as `model_connect`.
proof fn lemma_connect_matches_model(
    pre: Graph,
    post: Graph,
    aid: ActivityNodeId,
    mid: MutexNodeId,
    dir: Direction,
)
    requires
        conn_pairs_unique(pre.connections@),
        post.connections@ == pre.spec_connect_result(aid, mid, dir, false),
        post.activity_nodes == pre.activity_nodes,
        post.mutex_nodes == pre.mutex_nodes,
        post.next_activity_id == pre.next_activity_id,
        post.next_mutex_id == pre.next_mutex_id,
    ensures
        proj_graph(post) == model_connect(proj_graph(pre), aid.0, mid.0, dir),
{
    lemma_model_lookup_conn(pre.connections@, aid, mid);
    let conns = pre.connections@;
    let pconns0 = conns.map_values(|e: ConnectionEntry| proj_conn(e));
    let pconns1 = post.connections@.map_values(|e: ConnectionEntry| proj_conn(e));
    let target = model_connect(proj_graph(pre), aid.0, mid.0, dir);
    if has_conn(conns, aid, mid) {
        let i = conn_index_of(conns, aid, mid);
        assert(0 <= i < conns.len() && conns[i].activity_id == aid && conns[i].mutex_id == mid);
        assert(model_conn_index(pconns0, aid.0, mid.0) == i);
        assert(pconns0[i].direction == conns[i].connection.direction);
        if conns[i].connection.direction == dir {
            assert(post.connections@ == conns);
            assert(pconns1 =~= target.conns);
        } else {
            assert(pconns1 =~= target.conns);
        }
    } else {
        assert(pconns1 =~= target.conns);
    }
    assert(proj_graph(post) == target);
}

/// Every connection record still carries automata at rest; the state a
/// building import leaves the table in before the final update pass.
pub open spec fn conns_fresh(g: Graph) -> bool {
    forall|j: int|
        0 <= j < g.connections@.len() ==> (#[trigger] g.connections@[j]).connection
            == Connection::spec_new(g.connections@[j].connection.direction)
}

/// Case-insensitive comparison of a text range against a lower-case
/// tag.
fn field_is_tag(text: &str, fs: usize, fe: usize, tag: &str) -> (r: bool)
    requires
        fs <= fe <= text@.len(),
    ensures
        r == tag_is(text@.subrange(fs as int, fe as int), tag@),
{
    let ghost f = text@.subrange(fs as int, fe as int);
    let tlen = tag.unicode_len();
    if fe - fs != tlen {
        return false;
    }
    for k in 0..tlen
        invariant
            fs <= fe <= text@.len(),
            f == text@.subrange(fs as int, fe as int),
            tlen == tag@.len(),
            fe - fs == tlen,
            forall|j: int| 0 <= j < k ==> eq_ci(#[trigger] f[j], tag@[j]),
    {
        let a = text.get_char(fs + k);
        let b = tag.get_char(k);
        proof {
            assert(f[k as int] == a);
        }
        let au = a as u32;
        let bu = b as u32;
        if !(au == bu || (au >= 65 && au <= 90 && au + 32 == bu)) {
            proof {
                assert(!eq_ci(f[k as int], tag@[k as int]));
            }
            return false;
        }
    }
    true
}

/// A line-numbered error message.
fn make_msg(prefix: &str, line_no: usize) -> (s: String)
    ensures
        s@ == prefix@ + u64_chars(line_no as nat),
{
    let mut s = String::from_str(prefix);
    let t = crate::numbers::u64_to_string(line_no as u64);
    s.append(t.as_str());
    s
}

/// Split a line into its trimmed fields, as index ranges into the text.
fn split_trim_fields(text: &str, ls: usize, le: usize) -> (v: Vec<(usize, usize)>)
    requires
        ls <= le <= text@.len(),
    ensures
        ({
            let vals = line_fields(text@.subrange(ls as int, le as int));
            &&& v@.len() == vals.len()
            &&& v@.len() >= 1
            &&& forall|k: int|
                0 <= k < v@.len() ==> ls <= (#[trigger] v@[k]).0 <= v@[k].1 <= le
                    && text@.subrange(v@[k].0 as int, v@[k].1 as int) == vals[k]
        }),
{
    let ghost whole = text@.subrange(ls as int, le as int);
    let mut v: Vec<(usize, usize)> = Vec::new();
    let mut pos = ls;
    let ghost vals = line_fields(whole);
    loop
        invariant_except_break
            ls <= pos <= le <= text@.len(),
            whole == text@.subrange(ls as int, le as int),
            vals == line_fields(whole),
            line_fields(whole) == v@.map_values(
                |p: (usize, usize)| text@.subrange(p.0 as int, p.1 as int),
            ) + line_fields(text@.subrange(pos as int, le as int)),
            forall|k: int|
                0 <= k < v@.len() ==> ls <= (#[trigger] v@[k]).0 <= v@[k].1 <= le,
        ensures
            ({
                let fields = v@.map_values(
                    |p: (usize, usize)| text@.subrange(p.0 as int, p.1 as int),
                );
                &&& line_fields(whole) == fields
                &&& v@.len() >= 1
                &&& forall|k: int|
                    0 <= k < v@.len() ==> ls <= (#[trigger] v@[k]).0 <= v@[k].1 <= le
            }),
        decreases le - pos + 1,
    {
        let ghost rest = text@.subrange(pos as int, le as int);
        // find the next separator
        let mut b = pos;
        while b < le
            invariant_except_break
                pos <= b <= le <= text@.len(),
                rest == text@.subrange(pos as int, le as int),
                forall|j: int| 0 <= j < b - pos ==> rest[j] != ';',
            ensures
                pos <= b <= le <= text@.len(),
                forall|j: int| 0 <= j < b - pos ==> rest[j] != ';',
                b < le ==> rest[b - pos] == ';',
            decreases le - b,
        {
            let c = text.get_char(b);
            proof {
                assert(rest[b - pos] == c);
            }
            if c == ';' {
                break ;
            }
            b = b + 1;
        }
        proof {
            if b < le {
                crate::numbers::lemma_first_index_char(rest, ';', b - pos);
            } else {
                crate::numbers::lemma_first_index_char(rest, ';', rest.len() as int);
            }
        }
        let ghost raw = text@.subrange(pos as int, b as int);
        // trim the raw field
        let mut ts = pos;
        while ts < b
            invariant_except_break
                pos <= ts <= b <= text@.len(),
                raw == text@.subrange(pos as int, b as int),
                forall|j: int| 0 <= j < ts - pos ==> is_space(raw[j]),
            ensures
                pos <= ts <= b,
                forall|j: int| 0 <= j < ts - pos ==> is_space(raw[j]),
                ts < b ==> !is_space(raw[ts - pos]),
            decreases b - ts,
        {
            let c = text.get_char(ts);
            proof {
                assert(raw[ts - pos] == c);
            }
            let u = c as u32;
            if !(u == 32 || u == 9 || u == 13 || u == 11 || u == 12) {
                break ;
            }
            ts = ts + 1;
        }
        let mut te = b;
        while te > ts
            invariant_except_break
                ts <= te <= b <= text@.len(),
                pos <= ts,
                raw == text@.subrange(pos as int, b as int),
                forall|j: int| te - pos <= j < b - pos ==> is_space(raw[j]),
            ensures
                ts <= te <= b,
                forall|j: int| te - pos <= j < b - pos ==> is_space(raw[j]),
                te > ts ==> !is_space(raw[te - 1 - pos]),
            decreases te,
        {
            let c = text.get_char(te - 1);
            proof {
                assert(raw[te - 1 - pos] == c);
            }
            let u = c as u32;
            if !(u == 32 || u == 9 || u == 13 || u == 11 || u == 12) {
                break ;
            }
            te = te - 1;
        }
        proof {
            // the trimmed range is exactly the spec's trim of the raw field
            let tl = trim_left(raw);
            if ts < b {
                lemma_trim_left_range(raw, ts - pos);
            } else {
                lemma_trim_left_range(raw, raw.len() as int);
            }
            assert(tl == raw.subrange(ts - pos, raw.len() as int));
            assert forall|j: int| te - ts <= j < tl.len() implies is_space(tl[j]) by {
                assert(tl[j] == raw[j + ts - pos]);
            }
            if te > ts {
                assert(tl[te - ts - 1] == raw[te - 1 - pos]);
            }
            lemma_trim_right_range(tl, te - ts);
            assert(spec_trim(raw) == tl.subrange(0, te - ts));
            assert(tl.subrange(0, te - ts) =~= text@.subrange(ts as int, te as int));
        }
        let ghost v_pre = v@;
        v.push((ts, te));
        proof {
            let fields_pre = v_pre.map_values(
                |p: (usize, usize)| text@.subrange(p.0 as int, p.1 as int),
            );
            let fields_now = v@.map_values(
                |p: (usize, usize)| text@.subrange(p.0 as int, p.1 as int),
            );
            assert(fields_now =~= fields_pre.push(text@.subrange(ts as int, te as int)));
        }
        if b == le {
            proof {
                // the remainder had no separator: it is the final field
                assert(first_index_of(rest, ';') == -1 || !(0 <= first_index_of(rest, ';')
                    < rest.len()));
                assert(rest == raw);
                assert(line_fields(rest) =~= seq![spec_trim(raw)]);
                let fields_pre = v_pre.map_values(
                    |p: (usize, usize)| text@.subrange(p.0 as int, p.1 as int),
                );
                let fields_now = v@.map_values(
                    |p: (usize, usize)| text@.subrange(p.0 as int, p.1 as int),
                );
                assert(line_fields(whole) =~= fields_now);
            }
            break ;
        }
        proof {
            // one separator consumed: one field recognised
            let di = first_index_of(rest, ';');
            assert(di == b - pos);
            assert(rest.subrange(0, di) =~= raw);
            assert(rest.subrange(di + 1, rest.len() as int) =~= text@.subrange(
                b + 1,
                le as int,
            ));
            assert(line_fields(rest) == seq![spec_trim(raw)] + line_fields(
                text@.subrange(b + 1, le as int),
            ));
            let fields_pre = v_pre.map_values(
                |p: (usize, usize)| text@.subrange(p.0 as int, p.1 as int),
            );
            let fields_now = v@.map_values(
                |p: (usize, usize)| text@.subrange(p.0 as int, p.1 as int),
            );
            assert(fields_pre + line_fields(rest) =~= fields_now + line_fields(
                text@.subrange(b + 1, le as int),
            ));
        }
        pos = b + 1;
    }
    proof {
        assert(line_fields(whole).len() >= 1) by {
            let di = first_index_of(whole, ';');
            if !(0 <= di < whole.len()) {
            } else {
            }
        }
    }
    v
}

impl Graph {
    /// Import the positional fields and connection tail of one `Task`
    /// line.
    fn import_task_fields(
        &mut self,
        text: &str,
        fields: &Vec<(usize, usize)>,
        line_no: usize,
        Ghost(vals): Ghost<Seq<Seq<char>>>,
    ) -> (r: Result<(), String>)
        requires
            old(self).wf(),
            conns_fresh(*old(self)),
            fields@.len() == vals.len(),
            vals.len() >= 9,
            forall|k: int|
                0 <= k < fields@.len() ==> (#[trigger] fields@[k]).0 <= fields@[k].1
                    <= text@.len() && text@.subrange(
                    fields@[k].0 as int,
                    fields@[k].1 as int,
                ) == vals[k],
        ensures
            final(self).wf(),
            conns_fresh(*final(self)),
            final(self).name == old(self).name,
            final(self).tick_progress_micros == old(self).tick_progress_micros,
            final(self).ticks_per_second_milli == old(self).ticks_per_second_milli,
            final(self).remaining_ticks_to_run == old(self).remaining_ticks_to_run,
            match r {
                Ok(u) => import_task_line(proj_graph(*old(self)), vals, line_no as nat)
                    == Ok::<GraphModel, Seq<char>>(proj_graph(*final(self))),
                Err(e) => import_task_line(proj_graph(*old(self)), vals, line_no as nat)
                    == Err::<GraphModel, Seq<char>>(e@),
            },
    {
        let ghost m0 = proj_graph(*old(self));
        let f1 = fields[1];
        let x = match crate::numbers::parse_coord_range(text, f1.0, f1.1) {
            Some(x) => x,
            None => {
                return Err(make_msg("Error while parsing Position X in line: ", line_no));
            },
        };
        let f2 = fields[2];
        let y = match crate::numbers::parse_coord_range(text, f2.0, f2.1) {
            Some(y) => y,
            None => {
                return Err(make_msg("Error while parsing Position Y in line: ", line_no));
            },
        };
        let f3 = fields[3];
        let idv = match crate::numbers::parse_u64_range(text, f3.0, f3.1) {
            Some(v) => {
                if v >= usize::MAX as u64 {
                    return Err(make_msg("Error while parsing ID in line: ", line_no));
                }
                v
            },
            None => {
                return Err(make_msg("Error while parsing ID in line: ", line_no));
            },
        };
        let f6 = fields[6];
        let priority = match crate::numbers::parse_u64_range(text, f6.0, f6.1) {
            Some(v) => {
                if v > u32::MAX as u64 {
                    return Err(make_msg("Error while parsing Priority in line: ", line_no));
                }
                v as u32
            },
            None => {
                return Err(make_msg("Error while parsing Priority in line: ", line_no));
            },
        };
        let f7 = fields[7];
        let duration = match crate::numbers::parse_u64_range(text, f7.0, f7.1) {
            Some(v) => {
                if v > u32::MAX as u64 {
                    return Err(make_msg("Error while parsing Duration in line: ", line_no));
                }
                v as u32
            },
            None => {
                return Err(make_msg("Error while parsing Duration in line: ", line_no));
            },
        };
        let f8 = fields[8];
        let rem = match crate::numbers::parse_u64_range(text, f8.0, f8.1) {
            Some(v) => {
                if v > u32::MAX as u64 {
                    return Err(
                        make_msg("Error while parsing Remaining Duration in line: ", line_no),
                    );
                }
                v as u32
            },
            None => {
                return Err(
                    make_msg("Error while parsing Remaining Duration in line: ", line_no),
                );
            },
        };
        let rem_clamped = if rem <= duration {
            rem
        } else {
            duration
        };
        let f4 = fields[4];
        let f5 = fields[5];
        let mut node = ActivityNode::new(Pos::new(x, y));
        node.task_name = text.substring_char(f4.0, f4.1).to_owned();
        node.activity_name = text.substring_char(f5.0, f5.1).to_owned();
        node.priority = priority;
        node.duration = duration;
        node.remaining_duration = rem_clamped;
        let id = ActivityNodeId(idv as usize);
        let ghost am = (ActModel {
            id: idv as usize,
            x_milli: x,
            y_milli: y,
            task_name: vals[4],
            activity_name: vals[5],
            priority,
            duration,
            remaining_duration: rem_clamped,
        });
        let ghost entry = (ActivityEntry { id, node });
        proof {
            assert(proj_act(entry) == am);
            lemma_model_lookup_act(self.activity_nodes@, id);
        }
        self.add_activiy_node_with_id(node, id);
        proof {
            let pacts0 = old(self).activity_nodes@.map_values(|e: ActivityEntry| proj_act(e));
            let pacts1 = self.activity_nodes@.map_values(|e: ActivityEntry| proj_act(e));
            if has_act(old(self).activity_nodes@, id) {
                assert(pacts1 =~= pacts0.update(model_act_index(pacts0, id.0), am));
            } else {
                assert(pacts1 =~= pacts0.push(am));
            }
            assert(proj_graph(*self) == model_add_act(m0, am));
        }
        let ghost m_add = proj_graph(*self);
        let ghost aid0 = idv as usize;
        proof {
            assert(import_task_line(m0, vals, line_no as nat) == import_task_tail(
                m_add,
                vals,
                9,
                aid0,
                line_no as nat,
            ));
        }
        let n_fields = fields.len();
        let mut k: usize = 9;
        while k < n_fields
            invariant
                9 <= k <= n_fields,
                n_fields == fields@.len(),
                fields@.len() == vals.len(),
                forall|k2: int|
                    0 <= k2 < fields@.len() ==> (#[trigger] fields@[k2]).0 <= fields@[k2].1
                        <= text@.len() && text@.subrange(
                        fields@[k2].0 as int,
                        fields@[k2].1 as int,
                    ) == vals[k2],
                self.wf(),
                conns_fresh(*self),
                self.name == old(self).name,
                self.tick_progress_micros == old(self).tick_progress_micros,
                self.ticks_per_second_milli == old(self).ticks_per_second_milli,
                self.remaining_ticks_to_run == old(self).remaining_ticks_to_run,
                m0 == proj_graph(*old(self)),
                aid0 == id.0,
                import_task_line(m0, vals, line_no as nat) == import_task_tail(
                    proj_graph(*self),
                    vals,
                    k as int,
                    aid0,
                    line_no as nat,
                ),
            decreases n_fields - k,
        {
            let fk = fields[k];
            if fk.1 > fk.0 {
                match crate::numbers::parse_u64_range(text, fk.0, fk.1) {
                    Some(v) => {
                        let ghost g_prev = *self;
                        let ghost m_prev = proj_graph(*self);
                        let mid = MutexNodeId(v as usize);
                        proof {
                            lemma_model_lookup_conn(self.connections@, id, mid);
                        }
                        self.connect(id, mid, Direction::ActivityToMutex, false);
                        proof {
                            lemma_connect_matches_model(
                                g_prev,
                                *self,
                                id,
                                mid,
                                Direction::ActivityToMutex,
                            );
                            assert(proj_graph(*self) == model_connect(
                                m_prev,
                                aid0,
                                v as usize,
                                Direction::ActivityToMutex,
                            ));
                        }
                    },
                    None => {
                        return Err(
                            make_msg("Error while parsing Activity Connection in line: ", line_no),
                        );
                    },
                }
            }
            k = k + 1;
        }
        Ok(())
    }

    /// Import the positional fields and connection tail of one `Mutex`
    /// line.
    fn import_mutex_fields(
        &mut self,
        text: &str,
        fields: &Vec<(usize, usize)>,
        line_no: usize,
        Ghost(vals): Ghost<Seq<Seq<char>>>,
    ) -> (r: Result<(), String>)
        requires
            old(self).wf(),
            conns_fresh(*old(self)),
            fields@.len() == vals.len(),
            vals.len() >= 5,
            forall|k: int|
                0 <= k < fields@.len() ==> (#[trigger] fields@[k]).0 <= fields@[k].1
                    <= text@.len() && text@.subrange(
                    fields@[k].0 as int,
                    fields@[k].1 as int,
                ) == vals[k],
        ensures
            final(self).wf(),
            conns_fresh(*final(self)),
            final(self).name == old(self).name,
            final(self).tick_progress_micros == old(self).tick_progress_micros,
            final(self).ticks_per_second_milli == old(self).ticks_per_second_milli,
            final(self).remaining_ticks_to_run == old(self).remaining_ticks_to_run,
            match r {
                Ok(u) => import_mutex_line(proj_graph(*old(self)), vals, line_no as nat)
                    == Ok::<GraphModel, Seq<char>>(proj_graph(*final(self))),
                Err(e) => import_mutex_line(proj_graph(*old(self)), vals, line_no as nat)
                    == Err::<GraphModel, Seq<char>>(e@),
            },
    {
        let ghost m0 = proj_graph(*old(self));
        let f1 = fields[1];
        let x = match crate::numbers::parse_coord_range(text, f1.0, f1.1) {
            Some(x) => x,
            None => {
                return Err(make_msg("Error while parsing Position X in line: ", line_no));
            },
        };
        let f2 = fields[2];
        let y = match crate::numbers::parse_coord_range(text, f2.0, f2.1) {
            Some(y) => y,
            None => {
                return Err(make_msg("Error while parsing Position Y in line: ", line_no));
            },
        };
        let f3 = fields[3];
        let idv = match crate::numbers::parse_u64_range(text, f3.0, f3.1) {
            Some(v) => {
                if v >= usize::MAX as u64 {
                    return Err(make_msg("Error while parsing ID in line: ", line_no));
                }
                v
            },
            None => {
                return Err(make_msg("Error while parsing ID in line: ", line_no));
            },
        };
        let f4 = fields[4];
        let value = match crate::numbers::parse_u64_range(text, f4.0, f4.1) {
            Some(v) => {
                if v > u32::MAX as u64 {
                    return Err(make_msg("Error while parsing Mutex Value in line: ", line_no));
                }
                v as u32
            },
            None => {
                return Err(make_msg("Error while parsing Mutex Value in line: ", line_no));
            },
        };
        let mut node = MutexNode::new(Pos::new(x, y));
        node.value = value;
        let id = MutexNodeId(idv as usize);
        let ghost am = (MutModel { id: idv as usize, x_milli: x, y_milli: y, value });
        let ghost entry = (MutexEntry { id, node });
        proof {
            assert(proj_mut(entry) == am);
            lemma_model_lookup_mut(self.mutex_nodes@, id);
        }
        self.add_mutex_node_with_id(node, id);
        proof {
            let pmuts0 = old(self).mutex_nodes@.map_values(|e: MutexEntry| proj_mut(e));
            let pmuts1 = self.mutex_nodes@.map_values(|e: MutexEntry| proj_mut(e));
            if has_mutex(old(self).mutex_nodes@, id) {
                assert(pmuts1 =~= pmuts0.update(model_mut_index(pmuts0, id.0), am));
            } else {
                assert(pmuts1 =~= pmuts0.push(am));
            }
            assert(proj_graph(*self) == model_add_mut(m0, am));
        }
        let ghost m_add = proj_graph(*self);
        let ghost mid0 = idv as usize;
        proof {
            assert(import_mutex_line(m0, vals, line_no as nat) == import_mutex_tail(
                m_add,
                vals,
                5,
                mid0,
                line_no as nat,
            ));
        }
        let n_fields = fields.len();
        let mut k: usize = 5;
        while k < n_fields
            invariant
                5 <= k <= n_fields,
                n_fields == fields@.len(),
                fields@.len() == vals.len(),
                forall|k2: int|
                    0 <= k2 < fields@.len() ==> (#[trigger] fields@[k2]).0 <= fields@[k2].1
                        <= text@.len() && text@.subrange(
                        fields@[k2].0 as int,
                        fields@[k2].1 as int,
                    ) == vals[k2],
                self.wf(),
                conns_fresh(*self),
                self.name == old(self).name,
                self.tick_progress_micros == old(self).tick_progress_micros,
                self.ticks_per_second_milli == old(self).ticks_per_second_milli,
                self.remaining_ticks_to_run == old(self).remaining_ticks_to_run,
                m0 == proj_graph(*old(self)),
                mid0 == id.0,
                import_mutex_line(m0, vals, line_no as nat) == import_mutex_tail(
                    proj_graph(*self),
                    vals,
                    k as int,
                    mid0,
                    line_no as nat,
                ),
            decreases n_fields - k,
        {
            let fk = fields[k];
            if fk.1 > fk.0 {
                match crate::numbers::parse_u64_range(text, fk.0, fk.1) {
                    Some(v) => {
                        let ghost g_prev = *self;
                        let ghost m_prev = proj_graph(*self);
                        let aid = ActivityNodeId(v as usize);
                        proof {
                            lemma_model_lookup_conn(self.connections@, aid, id);
                        }
                        self.connect(aid, id, Direction::MutexToActivity, false);
                        proof {
                            lemma_connect_matches_model(
                                g_prev,
                                *self,
                                aid,
                                id,
                                Direction::MutexToActivity,
                            );
                            assert(proj_graph(*self) == model_connect(
                                m_prev,
                                v as usize,
                                mid0,
                                Direction::MutexToActivity,
                            ));
                        }
                    },
                    None => {
                        return Err(
                            make_msg("Error while parsing Activity Connection in line: ", line_no),
                        );
                    },
                }
            }
            k = k + 1;
        }
        Ok(())
    }

    /// Import one line of the persisted text into the graph under
    /// construction.
    fn import_line_into(&mut self, text: &str, ls: usize, le: usize, line_no: usize) -> (r:
        Result<(), String>)
        requires
            old(self).wf(),
            conns_fresh(*old(self)),
            ls <= le <= text@.len(),
        ensures
            final(self).wf(),
            conns_fresh(*final(self)),
            final(self).name == old(self).name,
            final(self).tick_progress_micros == old(self).tick_progress_micros,
            final(self).ticks_per_second_milli == old(self).ticks_per_second_milli,
            final(self).remaining_ticks_to_run == old(self).remaining_ticks_to_run,
            ({
                let line = text@.subrange(ls as int, le as int);
                match r {
                    Ok(u) => import_line(proj_graph(*old(self)), line, line_no as nat)
                        == Ok::<GraphModel, Seq<char>>(proj_graph(*final(self))),
                    Err(e) => import_line(proj_graph(*old(self)), line, line_no as nat)
                        == Err::<GraphModel, Seq<char>>(e@),
                }
            }),
    {
        let ghost line = text@.subrange(ls as int, le as int);
        let fields = split_trim_fields(text, ls, le);
        let ghost vals = line_fields(line);
        proof {
            assert forall|k: int|
                0 <= k < fields@.len() implies text@.subrange(
                (#[trigger] fields@[k]).0 as int,
                fields@[k].1 as int,
            ) == vals[k] by {}
        }
        let f0 = fields[0];
        if field_is_tag(text, f0.0, f0.1, "task") && fields.len() >= 9 {
            self.import_task_fields(text, &fields, line_no, Ghost(vals))
        } else if field_is_tag(text, f0.0, f0.1, "mutex") && fields.len() >= 5 {
            self.import_mutex_fields(text, &fields, line_no, Ghost(vals))
        } else {
            Ok(())
        }
    }
}


/// After the closing update pass every connection's automata stand
/// exactly one step beyond rest, driven by the final node values; a
/// record with a missing endpoint is still at rest.
pub open spec fn conns_settled(g: Graph) -> bool {
    forall|j: int|
        0 <= j < g.connections@.len() ==> {
            let e = #[trigger] g.connections@[j];
            let c0 = Connection::spec_new(e.connection.direction);
            e.connection == if has_act(g.activity_nodes@, e.activity_id) && has_mutex(
                g.mutex_nodes@,
                e.mutex_id,
            ) {
                c0.spec_tick(
                    act_node_of(g.activity_nodes@, e.activity_id),
                    mutex_node_of(g.mutex_nodes@, e.mutex_id),
                )
            } else {
                c0
            }
        }
}

impl Graph {
    /// Parse the text format back into a graph. `Task` and `Mutex`
    /// lines (case-insensitive tags) with enough fields are read by
    /// their positional layout; other lines are skipped; a field of a
    /// read line that fails numeric parsing aborts the whole import
    /// with a line-numbered message. The resulting graph is paused,
    /// carries the default name and rate, and its connection automata
    /// have been synchronized once against the imported node values.
    #[verifier::rlimit(100)]
    #[verifier::spinoff_prover]
    pub fn from_csv(text: &str) -> (r: Result<Graph, String>)
        requires
            text@.len() < usize::MAX,
        ensures
            match r {
                Ok(g) => {
                    &&& spec_import(text@) == Ok::<GraphModel, Seq<char>>(proj_graph(g))
                    &&& g.wf()
                    &&& g.name@ == "Unnamed Graph"@
                    &&& g.tick_progress_micros == 0
                    &&& g.ticks_per_second_milli == DEFAULT_TICKS_PER_SECOND_MILLI
                    &&& g.remaining_ticks_to_run == 0
                    &&& conns_settled(g)
                },
                Err(e) => spec_import(text@) == Err::<GraphModel, Seq<char>>(e@),
            },
    {
        let mut graph = Graph::default();
        proof {
            assert(proj_graph(graph).acts =~= empty_model().acts);
            assert(proj_graph(graph).muts =~= empty_model().muts);
            assert(proj_graph(graph).conns =~= empty_model().conns);
            assert(proj_graph(graph) == empty_model());
        }
        let n = text.unicode_len();
        proof {
            assert(text@.subrange(0, n as int) =~= text@);
        }
        let mut pos: usize = 0;
        let mut line_no: usize = 1;
        while pos < n
            invariant
                n == text@.len(),
                text@.len() < usize::MAX,
                pos <= n,
                1 <= line_no,
                line_no <= pos + 1,
                graph.wf(),
                conns_fresh(graph),
                graph.name@ == "Unnamed Graph"@,
                graph.tick_progress_micros == 0,
                graph.ticks_per_second_milli == DEFAULT_TICKS_PER_SECOND_MILLI,
                graph.remaining_ticks_to_run == 0,
                spec_import(text@) == import_lines(
                    proj_graph(graph),
                    text@.subrange(pos as int, n as int),
                    line_no as nat,
                ),
            decreases n - pos,
        {
            let ghost rest = text@.subrange(pos as int, n as int);
            let mut nl = pos;
            while nl < n
                invariant_except_break
                    pos <= nl <= n,
                    n == text@.len(),
                    rest == text@.subrange(pos as int, n as int),
                    forall|j: int| 0 <= j < nl - pos ==> rest[j] != '\n',
                ensures
                    pos <= nl <= n,
                    n == text@.len(),
                    rest == text@.subrange(pos as int, n as int),
                    forall|j: int| 0 <= j < nl - pos ==> rest[j] != '\n',
                    nl < n ==> rest[nl - pos] == '\n',
                decreases n - nl,
            {
                let c = text.get_char(nl);
                proof {
                    assert(rest[nl - pos] == c);
                }
                if c == '\n' {
                    break ;
                }
                nl = nl + 1;
            }
            proof {
                if nl < n {
                    crate::numbers::lemma_first_index_char(rest, '\n', nl - pos);
                } else {
                    crate::numbers::lemma_first_index_char(rest, '\n', rest.len() as int);
                }
            }
            let le = if nl > pos && text.get_char(nl - 1) == '\r' {
                nl - 1
            } else {
                nl
            };
            let ghost di = first_index_of(rest, '\n');
            let ghost raw = if !(0 <= di < rest.len()) {
                rest
            } else {
                rest.subrange(0, di)
            };
            proof {
                assert(raw =~= text@.subrange(pos as int, nl as int));
                if nl > pos {
                    assert(raw.last() == text@[nl - 1]);
                }
                if le < nl {
                    assert(raw.len() > 0 && raw.last() == '\r');
                    assert(strip_cr(raw) =~= text@.subrange(pos as int, le as int));
                } else {
                    assert(!(raw.len() > 0 && raw.last() == '\r'));
                    assert(strip_cr(raw) =~= text@.subrange(pos as int, le as int));
                }
            }
            let ghost g_before = graph;
            match graph.import_line_into(text, pos, le, line_no) {
                Err(e) => {
                    proof {
                        assert(import_lines(proj_graph(g_before), rest, line_no as nat)
                            == Err::<GraphModel, Seq<char>>(e@));
                    }
                    return Err(e);
                },
                Ok(u) => {},
            }
            proof {
                assert(import_line(
                    proj_graph(g_before),
                    text@.subrange(pos as int, le as int),
                    line_no as nat,
                ) == Ok::<GraphModel, Seq<char>>(proj_graph(graph)));
                if nl < n {
                    assert(rest.subrange(di + 1, rest.len() as int) =~= text@.subrange(
                        nl + 1,
                        n as int,
                    ));
                    assert(import_lines(proj_graph(g_before), rest, line_no as nat)
                        == import_lines(
                        proj_graph(graph),
                        text@.subrange(nl + 1, n as int),
                        line_no as nat + 1,
                    ));
                } else {
                    assert(import_lines(proj_graph(g_before), rest, line_no as nat)
                        == Ok::<GraphModel, Seq<char>>(proj_graph(graph)));
                    assert(text@.subrange(n as int, n as int) =~= Seq::<char>::empty());
                }
            }
            if nl < n {
                pos = nl + 1;
            } else {
                pos = n;
            }
            line_no = line_no + 1;
        }
        proof {
            assert(text@.subrange(pos as int, n as int) =~= Seq::<char>::empty());
            assert(spec_import(text@) == Ok::<GraphModel, Seq<char>>(proj_graph(graph)));
        }
        let ghost g_pre = graph;
        graph.update_connection_states();
        proof {
            assert(proj_graph(graph).conns =~= proj_graph(g_pre).conns) by {
                assert forall|j: int| 0 <= j < graph.connections@.len() implies proj_conn(
                    #[trigger] graph.connections@[j],
                ) == proj_conn(g_pre.connections@[j]) by {
                    assert(graph.connections@[j] == g_pre.spec_update_connection_states()[j]);
                }
            }
            assert(proj_graph(graph) == proj_graph(g_pre));
            assert(conns_settled(graph)) by {
                assert forall|j: int| 0 <= j < graph.connections@.len() implies {
                    let e = #[trigger] graph.connections@[j];
                    let c0 = Connection::spec_new(e.connection.direction);
                    e.connection == if has_act(graph.activity_nodes@, e.activity_id)
                        && has_mutex(graph.mutex_nodes@, e.mutex_id) {
                        c0.spec_tick(
                            act_node_of(graph.activity_nodes@, e.activity_id),
                            mutex_node_of(graph.mutex_nodes@, e.mutex_id),
                        )
                    } else {
                        c0
                    }
                } by {
                    assert(graph.connections@[j] == g_pre.spec_update_connection_states()[j]);
                    assert(g_pre.connections@[j].connection == Connection::spec_new(
                        g_pre.connections@[j].connection.direction,
                    ));
                }
            }
        }
        Ok(graph)
    }
}

} // verus!

use vstd::prelude::*;

use crate::codec::{
    a2m_ids, empty_model, eq_ci, import_line, import_mutex_line, import_mutex_tail,
    import_task_line, import_task_tail, is_space, join_ids, line_fields, m2a_ids,
    model_add_act, model_add_mut, model_connect, model_has_conn, proj_act, proj_graph,
    proj_mut, spec_trim, tag_is, mutex_line_body, task_line_body, trim_left, trim_right,
    ConnModel, GraphModel,
};
use crate::graph::{ConnectionEntry, Graph};
use crate::connection::Direction;
use crate::graph::{has_act, has_mutex, ActivityEntry, MutexEntry, MutexNodeId};
use crate::numbers::{
    all_digits, coord_chars, first_index_of, is_digit, lemma_coord_roundtrip,
    lemma_first_index_char, lemma_u64_chars_digits, spec_parse_u64, u64_chars,
};

verus! {

/// A name can ride through the codec verbatim when it cannot be
/// mistaken for structure: no separator, no line break, and no
/// whitespace at either end (the importer trims fields).
pub open spec fn name_survives_codec(s: Seq<char>) -> bool {
    &&& forall|i: int| 0 <= i < s.len() ==> (#[trigger] s[i]) != ';' && s[i] != '\n'
    &&& s.len() == 0 || (!is_space(s[0]) && !is_space(s[s.len() - 1]))
}

/// The character classes of generated numeric text: digits, the sign
/// and the decimal point. None of them is a separator, a line break or
/// whitespace.
pub open spec fn coord_char_ok(c: char) -> bool {
    is_digit(c) || c == '-' || c == '.'
}

proof fn lemma_coord_chars_class(m: int)
    ensures
        forall|i: int|
            0 <= i < coord_chars(m).len() ==> coord_char_ok(#[trigger] coord_chars(m)[i]),
{
    let mag = (if m < 0 {
        -m
    } else {
        m
    }) as nat;
    let sign: Seq<char> = if m < 0 {
        seq!['-']
    } else {
        Seq::empty()
    };
    let digits = u64_chars(mag / 1000);
    let frac = crate::numbers::frac_chars(mag % 1000);
    lemma_u64_chars_digits(mag / 1000);
    let fr = mag % 1000;
    let d1 = fr / 100;
    let d2 = (fr / 10) % 10;
    let d3 = fr % 10;
    assert(is_digit(crate::numbers::digit_char(d1)));
    assert(is_digit(crate::numbers::digit_char(d2)));
    assert(is_digit(crate::numbers::digit_char(d3)));
    assert forall|i: int|
        0 <= i < coord_chars(m).len() implies coord_char_ok(#[trigger] coord_chars(m)[i]) by {
        let s = coord_chars(m);
        if i < sign.len() {
            assert(s[i] == '-');
        } else if i < sign.len() + digits.len() {
            assert(s[i] == digits[i - sign.len()]);
        } else {
            let j = i - sign.len() - digits.len();
            assert(s[i] == frac[j]);
            if j == 0 {
                assert(frac[0] == '.');
            }
        }
    }
}

/// A field of well-behaved characters is kept whole by the splitter
/// and untouched by the trimmer.
proof fn lemma_trim_noop(f: Seq<char>)
    requires
        f.len() == 0 || (!is_space(f[0]) && !is_space(f[f.len() - 1])),
    ensures
        spec_trim(f) == f,
{
    assert(trim_left(f) == f);
    assert(trim_right(f) == f);
}

/// Splitting a line that starts with a separator-free field yields that
/// field (trimmed) and the fields of the remainder.
proof fn lemma_line_fields_cons(f: Seq<char>, rest: Seq<char>)
    requires
        forall|i: int| 0 <= i < f.len() ==> (#[trigger] f[i]) != ';',
    ensures
        line_fields(f + ";"@ + rest) == seq![spec_trim(f)] + line_fields(rest),
{
    reveal_strlit(";");
    let line = f + ";"@ + rest;
    assert forall|j: int| 0 <= j < f.len() implies line[j] != ';' by {
        assert(line[j] == f[j]);
    }
    assert(line[f.len() as int] == ';');
    lemma_first_index_char(line, ';', f.len() as int);
    let di = first_index_of(line, ';');
    assert(di == f.len());
    assert(line.subrange(0, di) =~= f);
    assert(line.subrange(di + 1, line.len() as int) =~= rest);
}

/// The joined id list, taken apart from the front.
proof fn lemma_join_ids_front(ids: Seq<usize>)
    requires
        ids.len() >= 2,
    ensures
        join_ids(ids) == u64_chars(ids[0] as nat) + ";"@ + join_ids(ids.drop_first()),
    decreases ids.len(),
{
    if ids.len() == 2 {
        assert(ids.drop_last() =~= seq![ids[0]]);
        assert(ids.drop_first() =~= seq![ids[1]]);
        assert(join_ids(seq![ids[0]]) == u64_chars(ids[0] as nat));
        assert(join_ids(seq![ids[1]]) == u64_chars(ids[1] as nat));
        assert(join_ids(ids) == join_ids(ids.drop_last()) + ";"@ + u64_chars(ids.last() as nat));
    } else {
        lemma_join_ids_front(ids.drop_last());
        let front = ids.drop_first();
        assert(ids.drop_last().drop_first() =~= front.drop_last());
        assert(ids.drop_last()[0] == ids[0]);
        assert(join_ids(ids) == join_ids(ids.drop_last()) + ";"@ + u64_chars(ids.last() as nat));
        assert(join_ids(front) == join_ids(front.drop_last()) + ";"@ + u64_chars(
            front.last() as nat,
        ));
        assert(front.last() == ids.last());
        assert(join_ids(ids) =~= u64_chars(ids[0] as nat) + ";"@ + join_ids(front));
    }
}

/// The fields of the joined id list: one all-digit field per id, or a
/// single empty field when the list is empty.
proof fn lemma_join_fields(ids: Seq<usize>)
    ensures
        line_fields(join_ids(ids)) == if ids.len() == 0 {
            seq![Seq::<char>::empty()]
        } else {
            Seq::new(ids.len(), |i: int| u64_chars(ids[i] as nat))
        },
    decreases ids.len(),
{
    if ids.len() == 0 {
        let empty = Seq::<char>::empty();
        assert(first_index_of(empty, ';') == -1);
        assert(trim_left(empty) == empty);
        assert(trim_right(empty) == empty);
        assert(line_fields(empty) =~= seq![empty]);
    } else if ids.len() == 1 {
        let f = u64_chars(ids[0] as nat);
        lemma_u64_chars_digits(ids[0] as nat);
        assert forall|j: int| 0 <= j < f.len() implies f[j] != ';' by {
            assert(is_digit(f[j]));
        }
        lemma_first_index_char(f, ';', f.len() as int);
        lemma_trim_noop(f);
        assert(join_ids(ids) == f);
        assert(line_fields(f) =~= seq![f]);
        assert(Seq::new(1, |i: int| u64_chars(ids[i] as nat)) =~= seq![f]);
    } else {
        let f = u64_chars(ids[0] as nat);
        lemma_u64_chars_digits(ids[0] as nat);
        assert forall|j: int| 0 <= j < f.len() implies f[j] != ';' by {
            assert(is_digit(f[j]));
        }
        lemma_join_ids_front(ids);
        lemma_line_fields_cons(f, join_ids(ids.drop_first()));
        lemma_join_fields(ids.drop_first());
        lemma_trim_noop(f);
        assert(!is_space(f[0]) && !is_space(f[f.len() - 1])) by {
            assert(is_digit(f[0]) && is_digit(f[f.len() - 1]));
        }
        assert(Seq::new(ids.len(), |i: int| u64_chars(ids[i] as nat)) =~= seq![f] + Seq::new(
            ids.drop_first().len(),
            |i: int| u64_chars(ids.drop_first()[i] as nat),
        ));
    }
}

/// Generated number text is a well-behaved field.
proof fn lemma_number_field_ok(s: Seq<char>)
    requires
        all_digits(s),
    ensures
        forall|i: int| 0 <= i < s.len() ==> (#[trigger] s[i]) != ';',
        s.len() == 0 || (!is_space(s[0]) && !is_space(s[s.len() - 1])),
{
    assert forall|i: int| 0 <= i < s.len() implies (#[trigger] s[i]) != ';' by {
        assert(is_digit(s[i]));
    }
    if s.len() > 0 {
        assert(is_digit(s[0]) && is_digit(s[s.len() - 1]));
    }
}

/// Generated coordinate text is a well-behaved field.
proof fn lemma_coord_field_ok(m: int)
    ensures
        forall|i: int|
            0 <= i < coord_chars(m).len() ==> (#[trigger] coord_chars(m)[i]) != ';',
        coord_chars(m).len() == 0 || (!is_space(coord_chars(m)[0]) && !is_space(
            coord_chars(m)[coord_chars(m).len() - 1],
        )),
{
    lemma_coord_chars_class(m);
    let s = coord_chars(m);
    assert forall|i: int| 0 <= i < s.len() implies (#[trigger] s[i]) != ';' by {
        assert(coord_char_ok(s[i]));
    }
    if s.len() > 0 {
        assert(coord_char_ok(s[0]) && coord_char_ok(s[s.len() - 1]));
    }
}

/// A well-behaved field: no separator inside, no whitespace at the
/// edges, so splitting and trimming hand it back whole.
pub open spec fn field_ok(f: Seq<char>) -> bool {
    &&& forall|i: int| 0 <= i < f.len() ==> (#[trigger] f[i]) != ';'
    &&& f.len() == 0 || (!is_space(f[0]) && !is_space(f[f.len() - 1]))
}

proof fn lemma_field_step(f: Seq<char>, rest: Seq<char>, vs: Seq<Seq<char>>)
    requires
        field_ok(f),
        line_fields(rest) == vs,
    ensures
        line_fields(f + ";"@ + rest) == seq![f] + vs,
{
    lemma_line_fields_cons(f, rest);
    lemma_trim_noop(f);
}

/// The fields of the tail of a `Task` line, from the first coordinate
/// on, for any well-behaved field contents.
#[verifier::rlimit(60)]
#[verifier::spinoff_prover]
proof fn lemma_task_rest_fields(
    fx: Seq<char>,
    fy: Seq<char>,
    fid: Seq<char>,
    ftn: Seq<char>,
    fan: Seq<char>,
    fp: Seq<char>,
    fd: Seq<char>,
    fr: Seq<char>,
    ids: Seq<usize>,
)
    requires
        field_ok(fx),
        field_ok(fy),
        field_ok(fid),
        field_ok(ftn),
        field_ok(fan),
        field_ok(fp),
        field_ok(fd),
        field_ok(fr),
    ensures
        line_fields(
            fx + ";"@ + (fy + ";"@ + (fid + ";"@ + (ftn + ";"@ + (fan + ";"@ + (fp + ";"@ + (fd
                + ";"@ + (fr + ";"@ + join_ids(ids)))))))),
        ) == seq![fx, fy, fid, ftn, fan, fp, fd, fr] + (if ids.len() == 0 {
            seq![Seq::<char>::empty()]
        } else {
            Seq::new(ids.len(), |i: int| u64_chars(ids[i] as nat))
        }),
{
    lemma_join_fields(ids);
    let t9 = line_fields(join_ids(ids));
    let r8 = fr + ";"@ + join_ids(ids);
    lemma_field_step(fr, join_ids(ids), t9);
    let r7 = fd + ";"@ + r8;
    lemma_field_step(fd, r8, seq![fr] + t9);
    let r6 = fp + ";"@ + r7;
    lemma_field_step(fp, r7, seq![fd] + (seq![fr] + t9));
    let r5 = fan + ";"@ + r6;
    lemma_field_step(fan, r6, seq![fp] + (seq![fd] + (seq![fr] + t9)));
    let r4 = ftn + ";"@ + r5;
    lemma_field_step(ftn, r5, seq![fan] + (seq![fp] + (seq![fd] + (seq![fr] + t9))));
    let r3 = fid + ";"@ + r4;
    lemma_field_step(
        fid,
        r4,
        seq![ftn] + (seq![fan] + (seq![fp] + (seq![fd] + (seq![fr] + t9)))),
    );
    let r2 = fy + ";"@ + r3;
    lemma_field_step(
        fy,
        r3,
        seq![fid] + (seq![ftn] + (seq![fan] + (seq![fp] + (seq![fd] + (seq![fr] + t9))))),
    );
    let r1 = fx + ";"@ + r2;
    lemma_field_step(
        fx,
        r2,
        seq![fy] + (seq![fid] + (seq![ftn] + (seq![fan] + (seq![fp] + (seq![fd] + (seq![fr]
            + t9)))))),
    );
    assert(line_fields(r1) =~= seq![fx, fy, fid, ftn, fan, fp, fd, fr] + t9);
}

/// The exported line body, re-grouped so the tag's field splits off
/// first. Pure re-association of the concatenation.
proof fn lemma_body_reassoc(e: ActivityEntry, ids: Seq<usize>)
    ensures
        task_line_body(e, ids) == "Task"@ + ";"@ + (coord_chars(e.node.pos.x_milli as int)
            + ";"@ + (coord_chars(e.node.pos.y_milli as int) + ";"@ + (u64_chars(e.id.0 as nat)
            + ";"@ + (e.node.task_name@ + ";"@ + (e.node.activity_name@ + ";"@ + (u64_chars(
            e.node.priority as nat,
        ) + ";"@ + (u64_chars(e.node.duration as nat) + ";"@ + (u64_chars(
            e.node.remaining_duration as nat,
        ) + ";"@ + join_ids(ids))))))))),
{
    let s = ";"@;
    let fx = coord_chars(e.node.pos.x_milli as int);
    let fy = coord_chars(e.node.pos.y_milli as int);
    let fid = u64_chars(e.id.0 as nat);
    let ftn = e.node.task_name@;
    let fan = e.node.activity_name@;
    let fp = u64_chars(e.node.priority as nat);
    let fd = u64_chars(e.node.duration as nat);
    let fr = u64_chars(e.node.remaining_duration as nat);
    let join = join_ids(ids);

    let p2 = "Task"@ + s;
    let p4 = p2 + fx + s;
    let p6 = p4 + fy + s;
    let p8 = p6 + fid + s;
    let p10 = p8 + ftn + s;
    let p12 = p10 + fan + s;
    let p14 = p12 + fp + s;
    let p16 = p14 + fd + s;
    let body = task_line_body(e, ids);
    assert(body == p16 + fr + s + join);

    let r8 = fr + s + join;
    vstd::seq_lib::lemma_concat_associative(p16, fr, s);
    vstd::seq_lib::lemma_concat_associative(p16, fr + s, join);
    assert(body == p16 + r8);
    let r7 = fd + s + r8;
    vstd::seq_lib::lemma_concat_associative(p14, fd, s);
    vstd::seq_lib::lemma_concat_associative(p14, fd + s, r8);
    assert(body == p14 + r7);
    let r6 = fp + s + r7;
    vstd::seq_lib::lemma_concat_associative(p12, fp, s);
    vstd::seq_lib::lemma_concat_associative(p12, fp + s, r7);
    assert(body == p12 + r6);
    let r5 = fan + s + r6;
    vstd::seq_lib::lemma_concat_associative(p10, fan, s);
    vstd::seq_lib::lemma_concat_associative(p10, fan + s, r6);
    assert(body == p10 + r5);
    let r4 = ftn + s + r5;
    vstd::seq_lib::lemma_concat_associative(p8, ftn, s);
    vstd::seq_lib::lemma_concat_associative(p8, ftn + s, r5);
    assert(body == p8 + r4);
    let r3 = fid + s + r4;
    vstd::seq_lib::lemma_concat_associative(p6, fid, s);
    vstd::seq_lib::lemma_concat_associative(p6, fid + s, r4);
    assert(body == p6 + r3);
    let r2 = fy + s + r3;
    vstd::seq_lib::lemma_concat_associative(p4, fy, s);
    vstd::seq_lib::lemma_concat_associative(p4, fy + s, r3);
    assert(body == p4 + r2);
    let r1 = fx + s + r2;
    vstd::seq_lib::lemma_concat_associative(p2, fx, s);
    vstd::seq_lib::lemma_concat_associative(p2, fx + s, r2);
    assert(body == p2 + r1);
}

/// The fields of one exported `Task` line body: the tag, the nine
/// positional fields, then one field per listed id.
#[verifier::rlimit(100)]
#[verifier::spinoff_prover]
proof fn lemma_task_line_fields(e: ActivityEntry, ids: Seq<usize>)
    requires
        e.node.pos.wf(),
        name_survives_codec(e.node.task_name@),
        name_survives_codec(e.node.activity_name@),
    ensures
        line_fields(task_line_body(e, ids)) == seq![
            "Task"@,
            coord_chars(e.node.pos.x_milli as int),
            coord_chars(e.node.pos.y_milli as int),
            u64_chars(e.id.0 as nat),
            e.node.task_name@,
            e.node.activity_name@,
            u64_chars(e.node.priority as nat),
            u64_chars(e.node.duration as nat),
            u64_chars(e.node.remaining_duration as nat),
        ] + (if ids.len() == 0 {
            seq![Seq::<char>::empty()]
        } else {
            Seq::new(ids.len(), |i: int| u64_chars(ids[i] as nat))
        }),
{
    reveal_strlit("Task");
    let tag = "Task"@;
    let fx = coord_chars(e.node.pos.x_milli as int);
    let fy = coord_chars(e.node.pos.y_milli as int);
    let fid = u64_chars(e.id.0 as nat);
    let ftn = e.node.task_name@;
    let fan = e.node.activity_name@;
    let fp = u64_chars(e.node.priority as nat);
    let fd = u64_chars(e.node.duration as nat);
    let fr = u64_chars(e.node.remaining_duration as nat);

    lemma_coord_field_ok(e.node.pos.x_milli as int);
    lemma_coord_field_ok(e.node.pos.y_milli as int);
    lemma_u64_chars_digits(e.id.0 as nat);
    lemma_u64_chars_digits(e.node.priority as nat);
    lemma_u64_chars_digits(e.node.duration as nat);
    lemma_u64_chars_digits(e.node.remaining_duration as nat);
    lemma_number_field_ok(fid);
    lemma_number_field_ok(fp);
    lemma_number_field_ok(fd);
    lemma_number_field_ok(fr);
    assert(tag.len() == 4 && tag[0] == 'T' && tag[1] == 'a' && tag[2] == 's' && tag[3] == 'k');
    assert(field_ok(tag)) by {
        assert forall|i: int| 0 <= i < tag.len() implies (#[trigger] tag[i]) != ';' by {
            if i == 0 {
            } else if i == 1 {
            } else if i == 2 {
            } else {
                assert(i == 3);
            }
        }
    }

    let r1 = fx + ";"@ + (fy + ";"@ + (fid + ";"@ + (ftn + ";"@ + (fan + ";"@ + (fp + ";"@ + (fd
        + ";"@ + (fr + ";"@ + join_ids(ids))))))));
    lemma_body_reassoc(e, ids);
    assert(task_line_body(e, ids) == tag + ";"@ + r1);
    lemma_task_rest_fields(fx, fy, fid, ftn, fan, fp, fd, fr, ids);
    lemma_field_step(
        tag,
        r1,
        seq![fx, fy, fid, ftn, fan, fp, fd, fr] + (if ids.len() == 0 {
            seq![Seq::<char>::empty()]
        } else {
            Seq::new(ids.len(), |i: int| u64_chars(ids[i] as nat))
        }),
    );
    assert(line_fields(task_line_body(e, ids)) =~= seq![tag, fx, fy, fid, ftn, fan, fp, fd, fr]
        + (if ids.len() == 0 {
        seq![Seq::<char>::empty()]
    } else {
        Seq::new(ids.len(), |i: int| u64_chars(ids[i] as nat))
    }));
}

/// The shape after connecting an activity to each listed mutex in
/// order, as the `Task` line's tail does.
pub open spec fn model_connect_ids(m: GraphModel, aid: usize, ids: Seq<usize>) -> GraphModel
    decreases ids.len(),
{
    if ids.len() == 0 {
        m
    } else {
        model_connect_ids(
            model_connect(m, aid, ids[0], Direction::ActivityToMutex),
            aid,
            ids.drop_first(),
        )
    }
}

proof fn lemma_task_tail_ids(
    m: GraphModel,
    vals: Seq<Seq<char>>,
    k: int,
    aid: usize,
    ids: Seq<usize>,
    line_no: nat,
)
    requires
        0 <= k,
        vals.len() == k + ids.len(),
        forall|i: int| 0 <= i < ids.len() ==> vals[k + i] == u64_chars((#[trigger] ids[i]) as nat),
    ensures
        import_task_tail(m, vals, k, aid, line_no) == Ok::<GraphModel, Seq<char>>(
            model_connect_ids(m, aid, ids),
        ),
    decreases ids.len(),
{
    if ids.len() > 0 {
        assert(vals[k] == u64_chars(ids[0] as nat));
        crate::numbers::lemma_u64_roundtrip(ids[0] as u64);
        assert(spec_parse_u64(vals[k]) == Some(ids[0] as u64));
        assert(vals[k].len() >= 1) by {
            lemma_u64_chars_digits(ids[0] as nat);
        }
        let m2 = model_connect(m, aid, ids[0], Direction::ActivityToMutex);
        assert forall|i: int|
            0 <= i < ids.drop_first().len() implies vals[(k + 1) + i] == u64_chars(
            (#[trigger] ids.drop_first()[i]) as nat,
        ) by {
            assert(ids.drop_first()[i] == ids[i + 1]);
        }
        lemma_task_tail_ids(m2, vals, k + 1, aid, ids.drop_first(), line_no);
    }
}

/// One direction of the round-trip property, one record at a time:
/// importing the exported line of an activity reproduces exactly that
/// activity — same id, position, names, priority, duration and
/// remaining duration — and connects exactly the listed mutexes, in
/// order. The names must not contain the separator or a line break and
/// must not begin or end in whitespace; a name such as `"a;b"` breaks
/// the round trip, since the exporter does not escape fields.
pub proof fn lemma_task_line_round_trip(
    m: GraphModel,
    e: ActivityEntry,
    ids: Seq<usize>,
    line_no: nat,
)
    requires
        e.node.wf(),
        e.id.0 < usize::MAX,
        name_survives_codec(e.node.task_name@),
        name_survives_codec(e.node.activity_name@),
    ensures
        import_line(m, task_line_body(e, ids), line_no) == Ok::<GraphModel, Seq<char>>(
            model_connect_ids(model_add_act(m, proj_act(e)), e.id.0, ids),
        ),
{
    lemma_task_line_fields(e, ids);
    let vals = line_fields(task_line_body(e, ids));
    assert(vals.len() >= 10);
    reveal_strlit("Task");
    reveal_strlit("task");
    reveal_strlit("mutex");
    assert(tag_is(vals[0], "task"@)) by {
        assert(vals[0] == "Task"@);
        assert(eq_ci("Task"@[0], "task"@[0]));
        assert(eq_ci("Task"@[1], "task"@[1]));
        assert(eq_ci("Task"@[2], "task"@[2]));
        assert(eq_ci("Task"@[3], "task"@[3]));
    }
    lemma_coord_roundtrip(e.node.pos.x_milli as int);
    lemma_coord_roundtrip(e.node.pos.y_milli as int);
    crate::numbers::lemma_u64_roundtrip(e.id.0 as u64);
    crate::numbers::lemma_u64_roundtrip(e.node.priority as u64);
    crate::numbers::lemma_u64_roundtrip(e.node.duration as u64);
    crate::numbers::lemma_u64_roundtrip(e.node.remaining_duration as u64);
    let m_add = model_add_act(m, proj_act(e));
    assert(import_task_line(m, vals, line_no) == import_task_tail(
        m_add,
        vals,
        9,
        e.id.0,
        line_no,
    ));
    if ids.len() == 0 {
        assert(vals.len() == 10 && vals[9].len() == 0);
        assert(import_task_tail(m_add, vals, 9, e.id.0, line_no) == import_task_tail(
            m_add,
            vals,
            10,
            e.id.0,
            line_no,
        ));
        assert(model_connect_ids(m_add, e.id.0, ids) == m_add);
    } else {
        assert forall|i: int|
            0 <= i < ids.len() implies vals[9 + i] == u64_chars((#[trigger] ids[i]) as nat) by {}
        lemma_task_tail_ids(m_add, vals, 9, e.id.0, ids, line_no);
    }
}


/// The `Mutex` line body, re-grouped so the tag's field splits off
/// first.
proof fn lemma_mutex_body_reassoc(e: MutexEntry, ids: Seq<usize>)
    ensures
        mutex_line_body(e, ids) == "Mutex"@ + ";"@ + (coord_chars(e.node.pos.x_milli as int)
            + ";"@ + (coord_chars(e.node.pos.y_milli as int) + ";"@ + (u64_chars(e.id.0 as nat)
            + ";"@ + (u64_chars(e.node.value as nat) + ";"@ + join_ids(ids))))),
{
    let s = ";"@;
    let fx = coord_chars(e.node.pos.x_milli as int);
    let fy = coord_chars(e.node.pos.y_milli as int);
    let fid = u64_chars(e.id.0 as nat);
    let fv = u64_chars(e.node.value as nat);
    let join = join_ids(ids);

    let p2 = "Mutex"@ + s;
    let p4 = p2 + fx + s;
    let p6 = p4 + fy + s;
    let p8 = p6 + fid + s;
    let body = mutex_line_body(e, ids);
    assert(body == p8 + fv + s + join);

    let r4 = fv + s + join;
    vstd::seq_lib::lemma_concat_associative(p8, fv, s);
    vstd::seq_lib::lemma_concat_associative(p8, fv + s, join);
    assert(body == p8 + r4);
    let r3 = fid + s + r4;
    vstd::seq_lib::lemma_concat_associative(p6, fid, s);
    vstd::seq_lib::lemma_concat_associative(p6, fid + s, r4);
    assert(body == p6 + r3);
    let r2 = fy + s + r3;
    vstd::seq_lib::lemma_concat_associative(p4, fy, s);
    vstd::seq_lib::lemma_concat_associative(p4, fy + s, r3);
    assert(body == p4 + r2);
    let r1 = fx + s + r2;
    vstd::seq_lib::lemma_concat_associative(p2, fx, s);
    vstd::seq_lib::lemma_concat_associative(p2, fx + s, r2);
    assert(body == p2 + r1);
}

/// The fields of one exported `Mutex` line body.
#[verifier::rlimit(60)]
#[verifier::spinoff_prover]
proof fn lemma_mutex_line_fields(e: MutexEntry, ids: Seq<usize>)
    requires
        e.node.pos.wf(),
    ensures
        line_fields(mutex_line_body(e, ids)) == seq![
            "Mutex"@,
            coord_chars(e.node.pos.x_milli as int),
            coord_chars(e.node.pos.y_milli as int),
            u64_chars(e.id.0 as nat),
            u64_chars(e.node.value as nat),
        ] + (if ids.len() == 0 {
            seq![Seq::<char>::empty()]
        } else {
            Seq::new(ids.len(), |i: int| u64_chars(ids[i] as nat))
        }),
{
    reveal_strlit("Mutex");
    let tag = "Mutex"@;
    let fx = coord_chars(e.node.pos.x_milli as int);
    let fy = coord_chars(e.node.pos.y_milli as int);
    let fid = u64_chars(e.id.0 as nat);
    let fv = u64_chars(e.node.value as nat);

    lemma_coord_field_ok(e.node.pos.x_milli as int);
    lemma_coord_field_ok(e.node.pos.y_milli as int);
    lemma_u64_chars_digits(e.id.0 as nat);
    lemma_u64_chars_digits(e.node.value as nat);
    lemma_number_field_ok(fid);
    lemma_number_field_ok(fv);
    assert(tag.len() == 5 && tag[0] == 'M' && tag[1] == 'u' && tag[2] == 't' && tag[3] == 'e'
        && tag[4] == 'x');
    assert(field_ok(tag)) by {
        assert forall|i: int| 0 <= i < tag.len() implies (#[trigger] tag[i]) != ';' by {
            if i == 0 {
            } else if i == 1 {
            } else if i == 2 {
            } else if i == 3 {
            } else {
                assert(i == 4);
            }
        }
    }

    let tail_fields = if ids.len() == 0 {
        seq![Seq::<char>::empty()]
    } else {
        Seq::new(ids.len(), |i: int| u64_chars(ids[i] as nat))
    };
    lemma_join_fields(ids);
    let r4 = fv + ";"@ + join_ids(ids);
    lemma_field_step(fv, join_ids(ids), tail_fields);
    let r3 = fid + ";"@ + r4;
    lemma_field_step(fid, r4, seq![fv] + tail_fields);
    let r2 = fy + ";"@ + r3;
    lemma_field_step(fy, r3, seq![fid] + (seq![fv] + tail_fields));
    let r1 = fx + ";"@ + r2;
    lemma_field_step(fx, r2, seq![fy] + (seq![fid] + (seq![fv] + tail_fields)));
    lemma_mutex_body_reassoc(e, ids);
    assert(mutex_line_body(e, ids) == tag + ";"@ + r1);
    lemma_field_step(tag, r1, seq![fx] + (seq![fy] + (seq![fid] + (seq![fv] + tail_fields))));
    assert(line_fields(mutex_line_body(e, ids)) =~= seq![tag, fx, fy, fid, fv] + tail_fields);
}

/// The shape after connecting each listed activity to a mutex in
/// order, as the `Mutex` line's tail does.
pub open spec fn model_connect_aids(m: GraphModel, mid: usize, ids: Seq<usize>) -> GraphModel
    decreases ids.len(),
{
    if ids.len() == 0 {
        m
    } else {
        model_connect_aids(
            model_connect(m, ids[0], mid, Direction::MutexToActivity),
            mid,
            ids.drop_first(),
        )
    }
}

proof fn lemma_mutex_tail_ids(
    m: GraphModel,
    vals: Seq<Seq<char>>,
    k: int,
    mid: usize,
    ids: Seq<usize>,
    line_no: nat,
)
    requires
        0 <= k,
        vals.len() == k + ids.len(),
        forall|i: int| 0 <= i < ids.len() ==> vals[k + i] == u64_chars((#[trigger] ids[i]) as nat),
    ensures
        import_mutex_tail(m, vals, k, mid, line_no) == Ok::<GraphModel, Seq<char>>(
            model_connect_aids(m, mid, ids),
        ),
    decreases ids.len(),
{
    if ids.len() > 0 {
        assert(vals[k] == u64_chars(ids[0] as nat));
        crate::numbers::lemma_u64_roundtrip(ids[0] as u64);
        assert(spec_parse_u64(vals[k]) == Some(ids[0] as u64));
        assert(vals[k].len() >= 1) by {
            lemma_u64_chars_digits(ids[0] as nat);
        }
        let m2 = model_connect(m, ids[0], mid, Direction::MutexToActivity);
        assert forall|i: int|
            0 <= i < ids.drop_first().len() implies vals[(k + 1) + i] == u64_chars(
            (#[trigger] ids.drop_first()[i]) as nat,
        ) by {
            assert(ids.drop_first()[i] == ids[i + 1]);
        }
        lemma_mutex_tail_ids(m2, vals, k + 1, mid, ids.drop_first(), line_no);
    }
}

/// One direction of the round-trip property for a mutex record:
/// importing the exported line of a mutex reproduces exactly that mutex
/// and connects exactly the listed activities, in order.
pub proof fn lemma_mutex_line_round_trip(
    m: GraphModel,
    e: MutexEntry,
    ids: Seq<usize>,
    line_no: nat,
)
    requires
        e.node.wf(),
        e.id.0 < usize::MAX,
    ensures
        import_line(m, mutex_line_body(e, ids), line_no) == Ok::<GraphModel, Seq<char>>(
            model_connect_aids(model_add_mut(m, proj_mut(e)), e.id.0, ids),
        ),
{
    lemma_mutex_line_fields(e, ids);
    let vals = line_fields(mutex_line_body(e, ids));
    assert(vals.len() >= 6);
    reveal_strlit("Mutex");
    reveal_strlit("mutex");
    reveal_strlit("task");
    assert(!tag_is(vals[0], "task"@)) by {
        assert(vals[0].len() == 5 && "task"@.len() == 4);
    }
    assert(tag_is(vals[0], "mutex"@)) by {
        assert(vals[0] == "Mutex"@);
        assert(eq_ci("Mutex"@[0], "mutex"@[0]));
        assert(eq_ci("Mutex"@[1], "mutex"@[1]));
        assert(eq_ci("Mutex"@[2], "mutex"@[2]));
        assert(eq_ci("Mutex"@[3], "mutex"@[3]));
        assert(eq_ci("Mutex"@[4], "mutex"@[4]));
    }
    lemma_coord_roundtrip(e.node.pos.x_milli as int);
    lemma_coord_roundtrip(e.node.pos.y_milli as int);
    crate::numbers::lemma_u64_roundtrip(e.id.0 as u64);
    crate::numbers::lemma_u64_roundtrip(e.node.value as u64);
    let m_add = model_add_mut(m, proj_mut(e));
    assert(import_mutex_line(m, vals, line_no) == import_mutex_tail(
        m_add,
        vals,
        5,
        e.id.0,
        line_no,
    ));
    if ids.len() == 0 {
        assert(vals.len() == 6 && vals[5].len() == 0);
        assert(import_mutex_tail(m_add, vals, 5, e.id.0, line_no) == import_mutex_tail(
            m_add,
            vals,
            6,
            e.id.0,
            line_no,
        ));
        assert(model_connect_aids(m_add, e.id.0, ids) == m_add);
    } else {
        assert forall|i: int|
            0 <= i < ids.len() implies vals[5 + i] == u64_chars((#[trigger] ids[i]) as nat) by {}
        lemma_mutex_tail_ids(m_add, vals, 5, e.id.0, ids, line_no);
    }
}


// ----- the record level of the round trip -----
//
// The lemmas above show that each exported line imports back to one
// `model_add_act`/`model_add_mut` followed by the connects of its id
// list. What follows shows that those very operations, folded over a
// graph's registries and exported id lists, rebuild the graph's
// persisted shape: the same activities and mutexes in the same order,
// and exactly the original pairs with their original directions.

/// The graph has a record carrying tokens out of activity `a` into
/// mutex `r` (ids as plain numbers).
pub open spec fn g_out(conns: Seq<ConnectionEntry>, a: usize, r: usize) -> bool {
    exists|j: int|
        0 <= j < conns.len() && (#[trigger] conns[j]).activity_id.0 == a && conns[j].mutex_id.0
            == r && conns[j].connection.direction != Direction::MutexToActivity
}

/// The graph has a record for the pair with exactly this direction.
pub open spec fn g_dir_is(
    conns: Seq<ConnectionEntry>,
    a: usize,
    r: usize,
    d: Direction,
) -> bool {
    exists|j: int|
        0 <= j < conns.len() && (#[trigger] conns[j]).activity_id.0 == a && conns[j].mutex_id.0
            == r && conns[j].connection.direction == d
}

/// The shape has a record for the pair with exactly this direction.
pub open spec fn m_dir_is(conns: Seq<ConnModel>, a: usize, r: usize, d: Direction) -> bool {
    exists|j: int|
        0 <= j < conns.len() && (#[trigger] conns[j]).activity_id == a && conns[j].mutex_id == r
            && conns[j].direction == d
}

/// At most one shape record per pair.
pub open spec fn model_pairs_unique(conns: Seq<ConnModel>) -> bool {
    forall|i: int, j: int|
        0 <= i < j < conns.len() ==> !((#[trigger] conns[i]).activity_id
            == (#[trigger] conns[j]).activity_id && conns[i].mutex_id == conns[j].mutex_id)
}

/// One of the first `i` mutex entries carries this id.
pub open spec fn mutex_processed(muts: Seq<MutexEntry>, i: int, r: usize) -> bool {
    exists|t: int| 0 <= t < i && (#[trigger] muts[t]).id.0 == r
}

/// Phase one of an import of exported records: every activity is added
/// and its exported id list connected, in registry order.
pub open spec fn model_import_acts(
    m: GraphModel,
    acts: Seq<ActivityEntry>,
    i: int,
    conns: Seq<ConnectionEntry>,
) -> GraphModel
    decreases acts.len() - i,
{
    if i < 0 || i >= acts.len() {
        m
    } else {
        model_import_acts(
            model_connect_ids(
                model_add_act(m, proj_act(acts[i])),
                acts[i].id.0,
                a2m_ids(conns, acts[i].id),
            ),
            acts,
            i + 1,
            conns,
        )
    }
}

/// Phase two: every mutex is added and its exported id list connected.
pub open spec fn model_import_muts(
    m: GraphModel,
    muts: Seq<MutexEntry>,
    i: int,
    conns: Seq<ConnectionEntry>,
) -> GraphModel
    decreases muts.len() - i,
{
    if i < 0 || i >= muts.len() {
        m
    } else {
        model_import_muts(
            model_connect_aids(
                model_add_mut(m, proj_mut(muts[i])),
                muts[i].id.0,
                m2a_ids(conns, muts[i].id),
            ),
            muts,
            i + 1,
            conns,
        )
    }
}

/// The whole import of a graph's exported records.
pub open spec fn model_round_trip(g: Graph) -> GraphModel {
    model_import_muts(
        model_import_acts(empty_model(), g.activity_nodes@, 0, g.connections@),
        g.mutex_nodes@,
        0,
        g.connections@,
    )
}

/// What the exported output-id list of an activity holds: exactly the
/// mutexes of its output-carrying records, each once.
proof fn lemma_a2m_ids_elems(conns: Seq<ConnectionEntry>, aid: crate::graph::ActivityNodeId)
    ensures
        forall|k: int|
            0 <= k < a2m_ids(conns, aid).len() ==> g_out(
                conns,
                aid.0,
                #[trigger] a2m_ids(conns, aid)[k],
            ),
        forall|r: usize| #[trigger] g_out(conns, aid.0, r) ==> a2m_ids(conns, aid).contains(r),
        crate::graph::conn_pairs_unique(conns) ==> forall|k1: int, k2: int|
            0 <= k1 < k2 < a2m_ids(conns, aid).len() ==> a2m_ids(conns, aid)[k1] != a2m_ids(
                conns,
                aid,
            )[k2],
    decreases conns.len(),
{
    if conns.len() > 0 {
        let front = conns.drop_last();
        lemma_a2m_ids_elems(front, aid);
        let e = conns.last();
        let rest = a2m_ids(front, aid);
        let ids = a2m_ids(conns, aid);
        assert forall|k: int| 0 <= k < ids.len() implies g_out(conns, aid.0, #[trigger] ids[k]) by {
            if k < rest.len() {
                assert(g_out(front, aid.0, rest[k]));
                let j = choose|j: int|
                    0 <= j < front.len() && (#[trigger] front[j]).activity_id.0 == aid.0
                        && front[j].mutex_id.0 == rest[k] && front[j].connection.direction
                        != Direction::MutexToActivity;
                assert(conns[j] == front[j]);
            } else {
                assert(conns[conns.len() - 1] == e);
                assert(e.activity_id == aid && e.connection.direction
                    != Direction::MutexToActivity);
            }
        }
        assert forall|r: usize| #[trigger] g_out(conns, aid.0, r) implies ids.contains(r) by {
            let j = choose|j: int|
                0 <= j < conns.len() && (#[trigger] conns[j]).activity_id.0 == aid.0
                    && conns[j].mutex_id.0 == r && conns[j].connection.direction
                    != Direction::MutexToActivity;
            if j < conns.len() - 1 {
                assert(front[j] == conns[j]);
                assert(g_out(front, aid.0, r));
                assert(rest.contains(r));
                let k = choose|k: int| 0 <= k < rest.len() && rest[k] == r;
                if e.activity_id == aid && e.connection.direction
                    != Direction::MutexToActivity {
                    assert(ids[k] == r);
                } else {
                    assert(ids[k] == r);
                }
            } else {
                assert(conns[j] == e);
                assert(e.activity_id == crate::graph::ActivityNodeId(e.activity_id.0));
                assert(e.activity_id == aid);
                assert(ids[ids.len() - 1] == r);
            }
        }
        if crate::graph::conn_pairs_unique(conns) {
            assert(crate::graph::conn_pairs_unique(front)) by {
                assert(forall|i: int, j: int|
                    0 <= i < j < front.len() ==> front[i] == conns[i] && front[j] == conns[j]);
            }
            if e.activity_id == aid && e.connection.direction != Direction::MutexToActivity {
                assert forall|k1: int, k2: int|
                    0 <= k1 < k2 < ids.len() implies ids[k1] != ids[k2] by {
                    if k2 == ids.len() - 1 {
                        // the freshly pushed mutex id cannot already be
                        // listed: that would need a second record of the
                        // same pair
                        if ids[k1] == e.mutex_id.0 {
                            assert(g_out(front, aid.0, rest[k1]));
                            let j = choose|j: int|
                                0 <= j < front.len() && (#[trigger] front[j]).activity_id.0
                                    == aid.0 && front[j].mutex_id.0 == rest[k1]
                                    && front[j].connection.direction
                                    != Direction::MutexToActivity;
                            assert(conns[j].activity_id
                                == crate::graph::ActivityNodeId(conns[j].activity_id.0));
                            assert(conns[j].mutex_id
                                == MutexNodeId(conns[j].mutex_id.0));
                            assert(e.activity_id
                                == crate::graph::ActivityNodeId(e.activity_id.0));
                            assert(e.mutex_id == MutexNodeId(e.mutex_id.0));
                            assert(conns[j].activity_id == e.activity_id
                                && conns[j].mutex_id == e.mutex_id);
                            assert(conns[conns.len() - 1] == e);
                        }
                    }
                }
            }
        }
    }
}

/// What the exported input-id list of a mutex holds.
proof fn lemma_m2a_ids_elems(conns: Seq<ConnectionEntry>, mid: MutexNodeId)
    ensures
        forall|k: int|
            0 <= k < m2a_ids(conns, mid).len() ==> g_in(
                conns,
                #[trigger] m2a_ids(conns, mid)[k],
                mid.0,
            ),
        forall|a: usize| #[trigger] g_in(conns, a, mid.0) ==> m2a_ids(conns, mid).contains(a),
        crate::graph::conn_pairs_unique(conns) ==> forall|k1: int, k2: int|
            0 <= k1 < k2 < m2a_ids(conns, mid).len() ==> m2a_ids(conns, mid)[k1] != m2a_ids(
                conns,
                mid,
            )[k2],
    decreases conns.len(),
{
    if conns.len() > 0 {
        let front = conns.drop_last();
        lemma_m2a_ids_elems(front, mid);
        let e = conns.last();
        let rest = m2a_ids(front, mid);
        let ids = m2a_ids(conns, mid);
        assert forall|k: int| 0 <= k < ids.len() implies g_in(conns, #[trigger] ids[k], mid.0) by {
            if k < rest.len() {
                assert(g_in(front, rest[k], mid.0));
                let j = choose|j: int|
                    0 <= j < front.len() && (#[trigger] front[j]).activity_id.0 == rest[k]
                        && front[j].mutex_id.0 == mid.0 && front[j].connection.direction
                        != Direction::ActivityToMutex;
                assert(conns[j] == front[j]);
            } else {
                assert(conns[conns.len() - 1] == e);
                assert(e.mutex_id == mid && e.connection.direction
                    != Direction::ActivityToMutex);
            }
        }
        assert forall|a: usize| #[trigger] g_in(conns, a, mid.0) implies ids.contains(a) by {
            let j = choose|j: int|
                0 <= j < conns.len() && (#[trigger] conns[j]).activity_id.0 == a
                    && conns[j].mutex_id.0 == mid.0 && conns[j].connection.direction
                    != Direction::ActivityToMutex;
            if j < conns.len() - 1 {
                assert(front[j] == conns[j]);
                assert(g_in(front, a, mid.0));
                assert(rest.contains(a));
                let k = choose|k: int| 0 <= k < rest.len() && rest[k] == a;
                assert(ids[k] == a);
            } else {
                assert(conns[j] == e);
                assert(e.mutex_id == MutexNodeId(e.mutex_id.0));
                assert(e.mutex_id == mid);
                assert(ids[ids.len() - 1] == a);
            }
        }
        if crate::graph::conn_pairs_unique(conns) {
            assert(crate::graph::conn_pairs_unique(front)) by {
                assert(forall|i: int, j: int|
                    0 <= i < j < front.len() ==> front[i] == conns[i] && front[j] == conns[j]);
            }
            if e.mutex_id == mid && e.connection.direction != Direction::ActivityToMutex {
                assert forall|k1: int, k2: int|
                    0 <= k1 < k2 < ids.len() implies ids[k1] != ids[k2] by {
                    if k2 == ids.len() - 1 {
                        if ids[k1] == e.activity_id.0 {
                            assert(g_in(front, rest[k1], mid.0));
                            let j = choose|j: int|
                                0 <= j < front.len() && (#[trigger] front[j]).activity_id.0
                                    == rest[k1] && front[j].mutex_id.0 == mid.0
                                    && front[j].connection.direction
                                    != Direction::ActivityToMutex;
                            assert(conns[j].activity_id
                                == crate::graph::ActivityNodeId(conns[j].activity_id.0));
                            assert(conns[j].mutex_id == MutexNodeId(conns[j].mutex_id.0));
                            assert(e.activity_id
                                == crate::graph::ActivityNodeId(e.activity_id.0));
                            assert(e.mutex_id == MutexNodeId(e.mutex_id.0));
                            assert(conns[j].activity_id == e.activity_id
                                && conns[j].mutex_id == e.mutex_id);
                            assert(conns[conns.len() - 1] == e);
                        }
                    }
                }
            }
        }
    }
}

/// The graph has a record carrying tokens from mutex `r` into activity
/// `a`.
pub open spec fn g_in(conns: Seq<ConnectionEntry>, a: usize, r: usize) -> bool {
    exists|j: int|
        0 <= j < conns.len() && (#[trigger] conns[j]).activity_id.0 == a && conns[j].mutex_id.0
            == r && conns[j].connection.direction != Direction::ActivityToMutex
}


/// Connecting a list of fresh pairs appends one record per id.
proof fn lemma_connect_ids_fresh(m: GraphModel, aid: usize, ids: Seq<usize>)
    requires
        forall|k: int| 0 <= k < ids.len() ==> !model_has_conn(m.conns, aid, #[trigger] ids[k]),
        forall|k1: int, k2: int| 0 <= k1 < k2 < ids.len() ==> ids[k1] != ids[k2],
    ensures
        ({
            let res = model_connect_ids(m, aid, ids);
            &&& res.acts == m.acts
            &&& res.muts == m.muts
            &&& res.next_activity_id == m.next_activity_id
            &&& res.next_mutex_id == m.next_mutex_id
            &&& res.conns == m.conns + Seq::new(
                ids.len(),
                |k: int|
                    ConnModel {
                        activity_id: aid,
                        mutex_id: ids[k],
                        direction: Direction::ActivityToMutex,
                    },
            )
        }),
    decreases ids.len(),
{
    let res = model_connect_ids(m, aid, ids);
    if ids.len() == 0 {
        assert(res.conns =~= m.conns + Seq::new(
            0,
            |k: int|
                ConnModel {
                    activity_id: aid,
                    mutex_id: ids[k],
                    direction: Direction::ActivityToMutex,
                },
        ));
        assert(res == m);
        assert(m.conns =~= m.conns + Seq::new(
            ids.len(),
            |k: int|
                ConnModel {
                    activity_id: aid,
                    mutex_id: ids[k],
                    direction: Direction::ActivityToMutex,
                },
        ));
    } else {
        let c0 = ConnModel { activity_id: aid, mutex_id: ids[0], direction: Direction::ActivityToMutex };
        assert(!model_has_conn(m.conns, aid, ids[0]));
        let m1 = model_connect(m, aid, ids[0], Direction::ActivityToMutex);
        assert(m1.conns == m.conns.push(c0));
        assert forall|k: int|
            0 <= k < ids.drop_first().len() implies !model_has_conn(
            m1.conns,
            aid,
            #[trigger] ids.drop_first()[k],
        ) by {
            assert(ids.drop_first()[k] == ids[k + 1]);
            if model_has_conn(m1.conns, aid, ids[k + 1]) {
                let j = choose|j: int|
                    0 <= j < m1.conns.len() && (#[trigger] m1.conns[j]).activity_id == aid
                        && m1.conns[j].mutex_id == ids[k + 1];
                if j < m.conns.len() {
                    assert(m.conns[j] == m1.conns[j]);
                    assert(model_has_conn(m.conns, aid, ids[k + 1]));
                } else {
                    assert(m1.conns[j] == c0);
                    assert(ids[k + 1] == ids[0]);
                }
            }
        }
        assert(forall|k1: int, k2: int|
            0 <= k1 < k2 < ids.drop_first().len() ==> ids.drop_first()[k1]
                != ids.drop_first()[k2]);
        lemma_connect_ids_fresh(m1, aid, ids.drop_first());
        assert(res.conns =~= m.conns + Seq::new(
            ids.len(),
            |k: int|
                ConnModel {
                    activity_id: aid,
                    mutex_id: ids[k],
                    direction: Direction::ActivityToMutex,
                },
        ));
    }
}

/// Phase-one invariant: every shape record so far is an output record
/// of one of the first `i` activities.
pub open spec fn phase1_recs(
    mconns: Seq<ConnModel>,
    acts: Seq<ActivityEntry>,
    i: int,
    conns: Seq<ConnectionEntry>,
) -> bool {
    forall|j: int|
        0 <= j < mconns.len() ==> {
            let c = #[trigger] mconns[j];
            &&& c.direction == Direction::ActivityToMutex
            &&& g_out(conns, c.activity_id, c.mutex_id)
            &&& exists|t: int| 0 <= t < i && (#[trigger] acts[t]).id.0 == c.activity_id
        }
}

/// Phase-one coverage: every output record of the first `i` activities
/// is already in the shape.
pub open spec fn phase1_covered(
    mconns: Seq<ConnModel>,
    acts: Seq<ActivityEntry>,
    i: int,
    conns: Seq<ConnectionEntry>,
) -> bool {
    forall|t: int, j: int|
        0 <= t < i && 0 <= j < conns.len() && (#[trigger] conns[j]).activity_id.0
            == (#[trigger] acts[t]).id.0 && conns[j].connection.direction
            != Direction::MutexToActivity ==> model_has_conn(
            mconns,
            conns[j].activity_id.0,
            conns[j].mutex_id.0,
        )
}

proof fn lemma_phase1(
    m: GraphModel,
    acts: Seq<ActivityEntry>,
    i: int,
    conns: Seq<ConnectionEntry>,
)
    requires
        0 <= i <= acts.len(),
        crate::graph::act_ids_unique(acts),
        crate::graph::conn_pairs_unique(conns),
        m.acts == acts.subrange(0, i).map_values(|e: ActivityEntry| proj_act(e)),
        phase1_recs(m.conns, acts, i, conns),
        phase1_covered(m.conns, acts, i, conns),
        model_pairs_unique(m.conns),
    ensures
        ({
            let res = model_import_acts(m, acts, i, conns);
            &&& res.acts == acts.map_values(|e: ActivityEntry| proj_act(e))
            &&& res.muts == m.muts
            &&& res.next_mutex_id == m.next_mutex_id
            &&& phase1_recs(res.conns, acts, acts.len() as int, conns)
            &&& phase1_covered(res.conns, acts, acts.len() as int, conns)
            &&& model_pairs_unique(res.conns)
        }),
    decreases acts.len() - i,
{
    if i == acts.len() {
        assert(acts.subrange(0, i) =~= acts);
    } else {
        let aid = acts[i].id;
        let ids = a2m_ids(conns, aid);
        lemma_a2m_ids_elems(conns, aid);
        let m1 = model_add_act(m, proj_act(acts[i]));
        assert(!crate::codec::model_has_act(m.acts, aid.0)) by {
            if crate::codec::model_has_act(m.acts, aid.0) {
                let w = choose|w: int|
                    0 <= w < m.acts.len() && (#[trigger] m.acts[w]).id == aid.0;
                assert(m.acts[w] == proj_act(acts.subrange(0, i)[w]));
                assert(acts[w].id.0 == aid.0);
                assert(acts[w].id == crate::graph::ActivityNodeId(acts[w].id.0));
                assert(acts[w].id == acts[i].id);
                assert(acts[w].id != acts[i].id);
            }
        }
        assert(m1.acts =~= acts.subrange(0, i + 1).map_values(|e: ActivityEntry| proj_act(e)));
        assert(m1.conns == m.conns);
        assert forall|k: int|
            0 <= k < ids.len() implies !model_has_conn(m1.conns, aid.0, #[trigger] ids[k]) by {
            if model_has_conn(m1.conns, aid.0, ids[k]) {
                let j = choose|j: int|
                    0 <= j < m.conns.len() && (#[trigger] m.conns[j]).activity_id == aid.0
                        && m.conns[j].mutex_id == ids[k];
                let t = choose|t: int| 0 <= t < i && (#[trigger] acts[t]).id.0
                    == m.conns[j].activity_id;
                assert(acts[t].id == crate::graph::ActivityNodeId(acts[t].id.0));
                assert(acts[t].id == acts[i].id);
                assert(acts[t].id != acts[i].id);
            }
        }
        lemma_connect_ids_fresh(m1, aid.0, ids);
        let m2 = model_connect_ids(m1, aid.0, ids);
        let appended = Seq::new(
            ids.len(),
            |k: int|
                ConnModel {
                    activity_id: aid.0,
                    mutex_id: ids[k],
                    direction: Direction::ActivityToMutex,
                },
        );
        assert(m2.conns == m.conns + appended);
        assert(phase1_recs(m2.conns, acts, i + 1, conns)) by {
            assert forall|j: int| 0 <= j < m2.conns.len() implies {
                let c = #[trigger] m2.conns[j];
                &&& c.direction == Direction::ActivityToMutex
                &&& g_out(conns, c.activity_id, c.mutex_id)
                &&& exists|t: int| 0 <= t < i + 1 && (#[trigger] acts[t]).id.0 == c.activity_id
            } by {
                if j < m.conns.len() {
                    assert(m2.conns[j] == m.conns[j]);
                    let t = choose|t: int|
                        0 <= t < i && (#[trigger] acts[t]).id.0 == m.conns[j].activity_id;
                    assert(0 <= t < i + 1 && acts[t].id.0 == m2.conns[j].activity_id);
                } else {
                    let k = j - m.conns.len();
                    assert(m2.conns[j] == appended[k]);
                    assert(g_out(conns, aid.0, ids[k]));
                    assert(acts[i].id.0 == m2.conns[j].activity_id);
                }
            }
        }
        assert(phase1_covered(m2.conns, acts, i + 1, conns)) by {
            assert forall|t: int, j: int|
                0 <= t < i + 1 && 0 <= j < conns.len() && (#[trigger] conns[j]).activity_id.0
                    == (#[trigger] acts[t]).id.0 && conns[j].connection.direction
                    != Direction::MutexToActivity implies model_has_conn(
                m2.conns,
                conns[j].activity_id.0,
                conns[j].mutex_id.0,
            ) by {
                if t < i {
                    assert(model_has_conn(m.conns, conns[j].activity_id.0, conns[j].mutex_id.0));
                    let w = choose|w: int|
                        0 <= w < m.conns.len() && (#[trigger] m.conns[w]).activity_id
                            == conns[j].activity_id.0 && m.conns[w].mutex_id
                            == conns[j].mutex_id.0;
                    assert(m2.conns[w] == m.conns[w]);
                } else {
                    assert(g_out(conns, aid.0, conns[j].mutex_id.0)) by {
                        assert(conns[j].activity_id.0 == aid.0);
                    }
                    assert(ids.contains(conns[j].mutex_id.0));
                    let k = choose|k: int| 0 <= k < ids.len() && ids[k] == conns[j].mutex_id.0;
                    assert(m2.conns[m.conns.len() + k] == appended[k]);
                    assert(appended[k].activity_id == conns[j].activity_id.0
                        && appended[k].mutex_id == conns[j].mutex_id.0);
                }
            }
        }
        assert(model_pairs_unique(m2.conns)) by {
            assert forall|p: int, q: int|
                0 <= p < q < m2.conns.len() implies !((#[trigger] m2.conns[p]).activity_id
                == (#[trigger] m2.conns[q]).activity_id && m2.conns[p].mutex_id
                == m2.conns[q].mutex_id) by {
                if q < m.conns.len() {
                    assert(m2.conns[p] == m.conns[p] && m2.conns[q] == m.conns[q]);
                } else if p < m.conns.len() {
                    assert(m2.conns[p] == m.conns[p]);
                    assert(m2.conns[q] == appended[q - m.conns.len()]);
                    // an old record belongs to an earlier activity
                    if m2.conns[p].activity_id == aid.0 {
                        let t = choose|t: int|
                            0 <= t < i && (#[trigger] acts[t]).id.0 == m.conns[p].activity_id;
                        assert(acts[t].id == crate::graph::ActivityNodeId(acts[t].id.0));
                        assert(acts[t].id == acts[i].id);
                        assert(acts[t].id != acts[i].id);
                    }
                } else {
                    assert(m2.conns[p] == appended[p - m.conns.len()]);
                    assert(m2.conns[q] == appended[q - m.conns.len()]);
                    assert(ids[p - m.conns.len()] != ids[q - m.conns.len()]);
                }
            }
        }
        lemma_phase1(m2, acts, i + 1, conns);
    }
}


/// Record directions at every pair not named agree between two shapes.
pub open spec fn dirs_preserved_outside(
    c1: Seq<ConnModel>,
    c2: Seq<ConnModel>,
    mid: usize,
    ids: Seq<usize>,
) -> bool {
    forall|a: usize, r: usize, d: Direction|
        !(r == mid && ids.contains(a)) ==> #[trigger] m_dir_is(c2, a, r, d) == m_dir_is(
            c1,
            a,
            r,
            d,
        )
}

/// A pair is present exactly when it is present with one of the three
/// directions.
proof fn lemma_has_from_dirs(c: Seq<ConnModel>, a: usize, r: usize)
    ensures
        model_has_conn(c, a, r) == (m_dir_is(c, a, r, Direction::MutexToActivity) || m_dir_is(
            c,
            a,
            r,
            Direction::ActivityToMutex,
        ) || m_dir_is(c, a, r, Direction::TwoWay)),
{
    if model_has_conn(c, a, r) {
        let j = choose|j: int|
            0 <= j < c.len() && (#[trigger] c[j]).activity_id == a && c[j].mutex_id == r;
        assert(m_dir_is(c, a, r, c[j].direction));
    }
}

/// Connecting a mutex's input list: a pair already present (necessarily
/// as an output record) is upgraded to `TwoWay`, a fresh pair is added
/// as an input record; every other pair keeps its direction, and every
/// surviving record is either touched as described or carried over
/// unchanged.
proof fn lemma_connect_aids_effect(m: GraphModel, mid: usize, ids: Seq<usize>)
    requires
        model_pairs_unique(m.conns),
        forall|k1: int, k2: int| 0 <= k1 < k2 < ids.len() ==> ids[k1] != ids[k2],
        forall|k: int|
            0 <= k < ids.len() ==> (model_has_conn(m.conns, #[trigger] ids[k], mid)
                ==> m_dir_is(m.conns, ids[k], mid, Direction::ActivityToMutex)),
    ensures
        ({
            let res = model_connect_aids(m, mid, ids);
            &&& res.acts == m.acts
            &&& res.muts == m.muts
            &&& res.next_activity_id == m.next_activity_id
            &&& res.next_mutex_id == m.next_mutex_id
            &&& model_pairs_unique(res.conns)
            &&& dirs_preserved_outside(m.conns, res.conns, mid, ids)
            &&& forall|k: int|
                0 <= k < ids.len() ==> m_dir_is(
                    res.conns,
                    #[trigger] ids[k],
                    mid,
                    if model_has_conn(m.conns, ids[k], mid) {
                        Direction::TwoWay
                    } else {
                        Direction::MutexToActivity
                    },
                )
            &&& forall|j: int|
                0 <= j < res.conns.len() ==> ((#[trigger] res.conns[j]).mutex_id == mid
                    && ids.contains(res.conns[j].activity_id) && res.conns[j].direction == (
                if model_has_conn(m.conns, res.conns[j].activity_id, mid) {
                    Direction::TwoWay
                } else {
                    Direction::MutexToActivity
                })) || m.conns.contains(res.conns[j])
        }),
    decreases ids.len(),
{
    let res = model_connect_aids(m, mid, ids);
    if ids.len() > 0 {
        let v = ids[0];
        let m1 = model_connect(m, v, mid, Direction::MutexToActivity);
        let rest = ids.drop_first();
        if model_has_conn(m.conns, v, mid) {
            let i = crate::codec::model_conn_index(m.conns, v, mid);
            assert(0 <= i < m.conns.len() && m.conns[i].activity_id == v && m.conns[i].mutex_id
                == mid);
            assert(m_dir_is(m.conns, v, mid, Direction::ActivityToMutex));
            let w = choose|w: int|
                0 <= w < m.conns.len() && (#[trigger] m.conns[w]).activity_id == v
                    && m.conns[w].mutex_id == mid && m.conns[w].direction
                    == Direction::ActivityToMutex;
            assert(w == i) by {
                if w < i {
                    assert(!(m.conns[w].activity_id == m.conns[i].activity_id
                        && m.conns[w].mutex_id == m.conns[i].mutex_id));
                } else if w > i {
                    assert(!(m.conns[i].activity_id == m.conns[w].activity_id
                        && m.conns[i].mutex_id == m.conns[w].mutex_id));
                }
            }
            assert(m.conns[i].direction == Direction::ActivityToMutex);
            assert(m1.conns == m.conns.update(
                i,
                (ConnModel { activity_id: v, mutex_id: mid, direction: Direction::TwoWay }),
            ));
        } else {
            assert(m1.conns == m.conns.push(
                (ConnModel {
                    activity_id: v,
                    mutex_id: mid,
                    direction: Direction::MutexToActivity,
                }),
            ));
        }
        // one step keeps uniqueness and touches only the pair (v, mid)
        assert(model_pairs_unique(m1.conns)) by {
            assert forall|p: int, q: int|
                0 <= p < q < m1.conns.len() implies !((#[trigger] m1.conns[p]).activity_id
                == (#[trigger] m1.conns[q]).activity_id && m1.conns[p].mutex_id
                == m1.conns[q].mutex_id) by {
                if q < m.conns.len() {
                    assert(m1.conns[p].activity_id == m.conns[p].activity_id
                        && m1.conns[p].mutex_id == m.conns[p].mutex_id);
                    assert(m1.conns[q].activity_id == m.conns[q].activity_id
                        && m1.conns[q].mutex_id == m.conns[q].mutex_id);
                } else {
                    // a push: the new pair was fresh
                    assert(m1.conns[p] == m.conns[p]);
                    if m1.conns[p].activity_id == v && m1.conns[p].mutex_id == mid {
                        assert(model_has_conn(m.conns, v, mid));
                    }
                }
            }
        }
        assert(one_pair_outside_ok(m.conns, m1.conns, v, mid)) by {
            assert forall|a: usize, r: usize, d: Direction|
                !(r == mid && a == v) implies #[trigger] m_dir_is(m1.conns, a, r, d)
                == m_dir_is(m.conns, a, r, d) by {
                if m_dir_is(m1.conns, a, r, d) {
                    let j = choose|j: int|
                        0 <= j < m1.conns.len() && (#[trigger] m1.conns[j]).activity_id == a
                            && m1.conns[j].mutex_id == r && m1.conns[j].direction == d;
                    if j < m.conns.len() && m1.conns[j] == m.conns[j] {
                        assert(m_dir_is(m.conns, a, r, d));
                    } else {
                        assert(m1.conns[j].activity_id == v && m1.conns[j].mutex_id == mid);
                    }
                }
                if m_dir_is(m.conns, a, r, d) {
                    let j = choose|j: int|
                        0 <= j < m.conns.len() && (#[trigger] m.conns[j]).activity_id == a
                            && m.conns[j].mutex_id == r && m.conns[j].direction == d;
                    if model_has_conn(m.conns, v, mid) {
                        let i = crate::codec::model_conn_index(m.conns, v, mid);
                        if j != i {
                            assert(m1.conns[j] == m.conns[j]);
                            assert(m_dir_is(m1.conns, a, r, d));
                        } else {
                            assert(a == v && r == mid);
                        }
                    } else {
                        assert(m1.conns[j] == m.conns[j]);
                        assert(m_dir_is(m1.conns, a, r, d));
                    }
                }
            }
        }
        assert(dirs_preserved_outside(m.conns, m1.conns, mid, ids)) by {
            assert forall|a: usize, r: usize, d: Direction|
                !(r == mid && ids.contains(a)) implies #[trigger] m_dir_is(m1.conns, a, r, d)
                == m_dir_is(m.conns, a, r, d) by {
                assert(!(r == mid && a == v)) by {
                    if r == mid && a == v {
                        assert(ids.contains(a)) by {
                            assert(ids[0] == a);
                        }
                    }
                }
            }
        }
        // the touched pair now has its final direction
        let d0 = if model_has_conn(m.conns, v, mid) {
            Direction::TwoWay
        } else {
            Direction::MutexToActivity
        };
        assert(m_dir_is(m1.conns, v, mid, d0)) by {
            if model_has_conn(m.conns, v, mid) {
                let i = crate::codec::model_conn_index(m.conns, v, mid);
                assert(m1.conns[i].activity_id == v && m1.conns[i].mutex_id == mid
                    && m1.conns[i].direction == Direction::TwoWay);
            } else {
                assert(m1.conns[m.conns.len() as int].activity_id == v);
            }
        }
        // premises for the remaining ids
        assert forall|k: int|
            0 <= k < rest.len() implies (model_has_conn(m1.conns, #[trigger] rest[k], mid)
            ==> m_dir_is(m1.conns, rest[k], mid, Direction::ActivityToMutex)) by {
            assert(rest[k] == ids[k + 1]);
            lemma_has_from_dirs(m1.conns, rest[k], mid);
            lemma_has_from_dirs(m.conns, rest[k], mid);
            assert(!(rest[k] == v));
            assert(!ids.contains(rest[k]) || true);
            // (rest[k], mid) is outside the pair touched by this step
            assert(m_dir_is(m1.conns, rest[k], mid, Direction::MutexToActivity) == m_dir_is(
                m.conns,
                rest[k],
                mid,
                Direction::MutexToActivity,
            ) && m_dir_is(m1.conns, rest[k], mid, Direction::ActivityToMutex) == m_dir_is(
                m.conns,
                rest[k],
                mid,
                Direction::ActivityToMutex,
            ) && m_dir_is(m1.conns, rest[k], mid, Direction::TwoWay) == m_dir_is(
                m.conns,
                rest[k],
                mid,
                Direction::TwoWay,
            )) by {
                assert(!(mid == mid && rest[k] == v)) by {
                    if rest[k] == v {
                        assert(ids[k + 1] == ids[0]);
                    }
                }
            }
        }
        assert(forall|k1: int, k2: int|
            0 <= k1 < k2 < rest.len() ==> rest[k1] != rest[k2]);
        lemma_connect_aids_effect(m1, mid, rest);
        // stitch the step and the rest together
        assert(res == model_connect_aids(m1, mid, rest));
        assert(dirs_preserved_outside(m.conns, res.conns, mid, ids)) by {
            assert forall|a: usize, r: usize, d: Direction|
                !(r == mid && ids.contains(a)) implies #[trigger] m_dir_is(res.conns, a, r, d)
                == m_dir_is(m.conns, a, r, d) by {
                assert(!(r == mid && rest.contains(a))) by {
                    if r == mid && rest.contains(a) {
                        let k = choose|k: int| 0 <= k < rest.len() && rest[k] == a;
                        assert(ids[k + 1] == a);
                    }
                }
                assert(m_dir_is(res.conns, a, r, d) == m_dir_is(m1.conns, a, r, d));
                assert(m_dir_is(m1.conns, a, r, d) == m_dir_is(m.conns, a, r, d));
            }
        }
        assert forall|k: int|
            0 <= k < ids.len() implies m_dir_is(
            res.conns,
            #[trigger] ids[k],
            mid,
            if model_has_conn(m.conns, ids[k], mid) {
                Direction::TwoWay
            } else {
                Direction::MutexToActivity
            },
        ) by {
            if k == 0 {
                // set by this step, untouched by the rest
                assert(!rest.contains(v)) by {
                    if rest.contains(v) {
                        let k2 = choose|k2: int| 0 <= k2 < rest.len() && rest[k2] == v;
                        assert(ids[k2 + 1] == ids[0]);
                    }
                }
                assert(m_dir_is(res.conns, v, mid, d0) == m_dir_is(m1.conns, v, mid, d0));
            } else {
                assert(rest[k - 1] == ids[k]);
                lemma_has_from_dirs(m1.conns, ids[k], mid);
                lemma_has_from_dirs(m.conns, ids[k], mid);
                assert(ids[k] != v);
                assert(m_dir_is(m1.conns, ids[k], mid, Direction::MutexToActivity) == m_dir_is(
                    m.conns,
                    ids[k],
                    mid,
                    Direction::MutexToActivity,
                ) && m_dir_is(m1.conns, ids[k], mid, Direction::ActivityToMutex) == m_dir_is(
                    m.conns,
                    ids[k],
                    mid,
                    Direction::ActivityToMutex,
                ) && m_dir_is(m1.conns, ids[k], mid, Direction::TwoWay) == m_dir_is(
                    m.conns,
                    ids[k],
                    mid,
                    Direction::TwoWay,
                ));
                assert(model_has_conn(m1.conns, ids[k], mid) == model_has_conn(
                    m.conns,
                    ids[k],
                    mid,
                ));
            }
        }
        assert forall|j: int|
            0 <= j < res.conns.len() implies ((#[trigger] res.conns[j]).mutex_id == mid
            && ids.contains(res.conns[j].activity_id) && res.conns[j].direction == (
        if model_has_conn(m.conns, res.conns[j].activity_id, mid) {
            Direction::TwoWay
        } else {
            Direction::MutexToActivity
        })) || m.conns.contains(res.conns[j]) by {
            let c = res.conns[j];
            if c.mutex_id == mid && rest.contains(c.activity_id) && c.direction == (
            if model_has_conn(m1.conns, c.activity_id, mid) {
                Direction::TwoWay
            } else {
                Direction::MutexToActivity
            }) {
                let k = choose|k: int| 0 <= k < rest.len() && rest[k] == c.activity_id;
                assert(ids[k + 1] == c.activity_id);
                assert(ids.contains(c.activity_id));
                lemma_has_from_dirs(m1.conns, c.activity_id, mid);
                lemma_has_from_dirs(m.conns, c.activity_id, mid);
                assert(c.activity_id != v);
                assert(m_dir_is(m1.conns, c.activity_id, mid, Direction::MutexToActivity)
                    == m_dir_is(m.conns, c.activity_id, mid, Direction::MutexToActivity)
                    && m_dir_is(m1.conns, c.activity_id, mid, Direction::ActivityToMutex)
                    == m_dir_is(m.conns, c.activity_id, mid, Direction::ActivityToMutex)
                    && m_dir_is(m1.conns, c.activity_id, mid, Direction::TwoWay) == m_dir_is(
                    m.conns,
                    c.activity_id,
                    mid,
                    Direction::TwoWay,
                ));
                assert(model_has_conn(m1.conns, c.activity_id, mid) == model_has_conn(
                    m.conns,
                    c.activity_id,
                    mid,
                ));
            } else {
                assert(m1.conns.contains(c));
                let w = choose|w: int| 0 <= w < m1.conns.len() && m1.conns[w] == c;
                if model_has_conn(m.conns, v, mid) {
                    let i = crate::codec::model_conn_index(m.conns, v, mid);
                    if w != i {
                        assert(m.conns[w] == c);
                        assert(m.conns.contains(c));
                    } else {
                        assert(c.activity_id == v && c.mutex_id == mid
                            && c.direction == Direction::TwoWay);
                        assert(ids.contains(v)) by {
                            assert(ids[0] == v);
                        }
                    }
                } else {
                    if w < m.conns.len() {
                        assert(m.conns[w] == c);
                        assert(m.conns.contains(c));
                    } else {
                        assert(c.activity_id == v && c.mutex_id == mid
                            && c.direction == Direction::MutexToActivity);
                        assert(ids.contains(v)) by {
                            assert(ids[0] == v);
                        }
                    }
                }
            }
        }
    }
}

/// One `model_connect` step leaves every pair other than the connected
/// one untouched, direction by direction.
pub open spec fn one_pair_outside_ok(
    c1: Seq<ConnModel>,
    c2: Seq<ConnModel>,
    v: usize,
    mid: usize,
) -> bool {
    forall|a: usize, r: usize, d: Direction|
        !(r == mid && a == v) ==> #[trigger] m_dir_is(c2, a, r, d) == m_dir_is(c1, a, r, d)
}


/// Phase-two invariant on the shape's records: a record whose mutex has
/// been processed carries its final direction, matching the graph's
/// record of the pair; one whose mutex is still pending is an untouched
/// phase-one output record.
pub open spec fn phase2_recs(
    mconns: Seq<ConnModel>,
    muts: Seq<MutexEntry>,
    i: int,
    conns: Seq<ConnectionEntry>,
) -> bool {
    forall|j: int|
        0 <= j < mconns.len() ==> {
            let c = #[trigger] mconns[j];
            if mutex_processed(muts, i, c.mutex_id) {
                g_dir_is(conns, c.activity_id, c.mutex_id, c.direction)
            } else {
                c.direction == Direction::ActivityToMutex && g_out(
                    conns,
                    c.activity_id,
                    c.mutex_id,
                )
            }
        }
}

/// Every output record of the graph whose mutex is still pending is
/// present in the shape (as its phase-one record).
pub open spec fn phase2_unproc_covered(
    mconns: Seq<ConnModel>,
    muts: Seq<MutexEntry>,
    i: int,
    conns: Seq<ConnectionEntry>,
) -> bool {
    forall|j: int|
        0 <= j < conns.len() && !mutex_processed(muts, i, (#[trigger] conns[j]).mutex_id.0)
            && conns[j].connection.direction != Direction::MutexToActivity ==> model_has_conn(
            mconns,
            conns[j].activity_id.0,
            conns[j].mutex_id.0,
        )
}

/// Every record of the graph whose mutex has been processed stands in
/// the shape with its exact direction.
pub open spec fn phase2_proc_covered(
    mconns: Seq<ConnModel>,
    muts: Seq<MutexEntry>,
    i: int,
    conns: Seq<ConnectionEntry>,
) -> bool {
    forall|j: int|
        0 <= j < conns.len() && mutex_processed(muts, i, (#[trigger] conns[j]).mutex_id.0)
            ==> m_dir_is(
            mconns,
            conns[j].activity_id.0,
            conns[j].mutex_id.0,
            conns[j].connection.direction,
        )
}

/// No dangling records: every record's endpoints exist.
pub open spec fn no_dangling(g: Graph) -> bool {
    forall|j: int|
        0 <= j < g.connections@.len() ==> has_act(
            g.activity_nodes@,
            (#[trigger] g.connections@[j]).activity_id,
        ) && has_mutex(g.mutex_nodes@, g.connections@[j].mutex_id)
}

#[verifier::rlimit(100)]
#[verifier::spinoff_prover]
proof fn lemma_phase2(
    m: GraphModel,
    muts: Seq<MutexEntry>,
    i: int,
    conns: Seq<ConnectionEntry>,
)
    requires
        0 <= i <= muts.len(),
        crate::graph::mutex_ids_unique(muts),
        crate::graph::conn_pairs_unique(conns),
        m.muts == muts.subrange(0, i).map_values(|e: MutexEntry| proj_mut(e)),
        phase2_recs(m.conns, muts, i, conns),
        phase2_unproc_covered(m.conns, muts, i, conns),
        phase2_proc_covered(m.conns, muts, i, conns),
        model_pairs_unique(m.conns),
    ensures
        ({
            let res = model_import_muts(m, muts, i, conns);
            &&& res.acts == m.acts
            &&& res.next_activity_id == m.next_activity_id
            &&& res.muts == muts.map_values(|e: MutexEntry| proj_mut(e))
            &&& phase2_recs(res.conns, muts, muts.len() as int, conns)
            &&& phase2_proc_covered(res.conns, muts, muts.len() as int, conns)
            &&& model_pairs_unique(res.conns)
        }),
    decreases muts.len() - i,
{
    if i == muts.len() {
        assert(muts.subrange(0, i) =~= muts);
    } else {
        let mid = muts[i].id;
        let ids = m2a_ids(conns, mid);
        lemma_m2a_ids_elems(conns, mid);
        let m1 = model_add_mut(m, proj_mut(muts[i]));
        assert(!crate::codec::model_has_mut(m.muts, mid.0)) by {
            if crate::codec::model_has_mut(m.muts, mid.0) {
                let w = choose|w: int| 0 <= w < m.muts.len() && (#[trigger] m.muts[w]).id == mid.0;
                assert(m.muts[w] == proj_mut(muts.subrange(0, i)[w]));
                assert(muts[w].id.0 == mid.0);
                assert(muts[w].id == MutexNodeId(muts[w].id.0));
                assert(muts[w].id == muts[i].id);
                assert(muts[w].id != muts[i].id);
            }
        }
        assert(m1.muts =~= muts.subrange(0, i + 1).map_values(|e: MutexEntry| proj_mut(e)));
        assert(m1.conns == m.conns);
        // no mutex id among the first i entries equals this one
        assert(!mutex_processed(muts, i, mid.0)) by {
            if mutex_processed(muts, i, mid.0) {
                let t = choose|t: int| 0 <= t < i && (#[trigger] muts[t]).id.0 == mid.0;
                assert(muts[t].id == MutexNodeId(muts[t].id.0));
                assert(muts[t].id == muts[i].id);
                assert(muts[t].id != muts[i].id);
            }
        }
        // phase-one state of the pairs this mutex will touch
        assert forall|k: int|
            0 <= k < ids.len() implies (model_has_conn(m1.conns, #[trigger] ids[k], mid.0)
            ==> m_dir_is(m1.conns, ids[k], mid.0, Direction::ActivityToMutex)) by {
            if model_has_conn(m1.conns, ids[k], mid.0) {
                let j = choose|j: int|
                    0 <= j < m.conns.len() && (#[trigger] m.conns[j]).activity_id == ids[k]
                        && m.conns[j].mutex_id == mid.0;
                assert(m.conns[j].direction == Direction::ActivityToMutex);
                assert(m_dir_is(m1.conns, ids[k], mid.0, Direction::ActivityToMutex));
            }
        }
        lemma_connect_aids_effect(m1, mid.0, ids);
        let m2 = model_connect_aids(m1, mid.0, ids);
        // processing this mutex extends the processed set by exactly it
        assert forall|r: usize| #[trigger] mutex_processed(muts, i + 1, r) == (mutex_processed(
            muts,
            i,
            r,
        ) || r == mid.0) by {
            if mutex_processed(muts, i + 1, r) {
                let t = choose|t: int| 0 <= t < i + 1 && (#[trigger] muts[t]).id.0 == r;
                if t < i {
                    assert(mutex_processed(muts, i, r));
                }
            }
            if mutex_processed(muts, i, r) {
                let t = choose|t: int| 0 <= t < i && (#[trigger] muts[t]).id.0 == r;
                assert(0 <= t < i + 1 && muts[t].id.0 == r);
            }
            if r == mid.0 {
                assert(0 <= i < i + 1 && muts[i].id.0 == r);
            }
        }
        // a pair (a, mid) has a graph record with direction other than
        // `MutexToActivity` exactly when the shape already holds it
        assert forall|a: usize| #[trigger] model_has_conn(m1.conns, a, mid.0) == g_out(
            conns,
            a,
            mid.0,
        ) by {
            if model_has_conn(m1.conns, a, mid.0) {
                let j = choose|j: int|
                    0 <= j < m.conns.len() && (#[trigger] m.conns[j]).activity_id == a
                        && m.conns[j].mutex_id == mid.0;
                assert(g_out(conns, m.conns[j].activity_id, m.conns[j].mutex_id));
            }
            if g_out(conns, a, mid.0) {
                let j = choose|j: int|
                    0 <= j < conns.len() && (#[trigger] conns[j]).activity_id.0 == a
                        && conns[j].mutex_id.0 == mid.0 && conns[j].connection.direction
                        != Direction::MutexToActivity;
                assert(model_has_conn(m.conns, conns[j].activity_id.0, conns[j].mutex_id.0));
            }
        }
        // a graph record of this mutex pins the direction of the pair
        assert forall|j: int|
            0 <= j < conns.len() && (#[trigger] conns[j]).mutex_id.0 == mid.0 implies m_dir_is(
            m2.conns,
            conns[j].activity_id.0,
            mid.0,
            conns[j].connection.direction,
        ) by {
            let a = conns[j].activity_id.0;
            let d = conns[j].connection.direction;
            if d != Direction::ActivityToMutex {
                assert(g_in(conns, a, mid.0)) by {
                    assert(conns[j].activity_id.0 == a);
                }
                assert(ids.contains(a));
                let k = choose|k: int| 0 <= k < ids.len() && ids[k] == a;
                // the shape had the pair exactly when the record is two-way
                assert(model_has_conn(m1.conns, a, mid.0) == (d == Direction::TwoWay)) by {
                    if g_out(conns, a, mid.0) {
                        let j2 = choose|j2: int|
                            0 <= j2 < conns.len() && (#[trigger] conns[j2]).activity_id.0 == a
                                && conns[j2].mutex_id.0 == mid.0 && conns[j2].connection.direction
                                != Direction::MutexToActivity;
                        assert(j2 == j) by {
                            if j2 != j {
                                assert(conns[j2].activity_id
                                    == crate::graph::ActivityNodeId(conns[j2].activity_id.0));
                                assert(conns[j].activity_id
                                    == crate::graph::ActivityNodeId(conns[j].activity_id.0));
                                assert(conns[j2].mutex_id == MutexNodeId(conns[j2].mutex_id.0));
                                assert(conns[j].mutex_id == MutexNodeId(conns[j].mutex_id.0));
                                if j2 < j {
                                    assert(!(conns[j2].activity_id == conns[j].activity_id
                                        && conns[j2].mutex_id == conns[j].mutex_id));
                                } else {
                                    assert(!(conns[j].activity_id == conns[j2].activity_id
                                        && conns[j].mutex_id == conns[j2].mutex_id));
                                }
                                assert(false);
                            }
                        }
                        assert(d != Direction::MutexToActivity);
                    }
                    if d == Direction::TwoWay {
                        assert(g_out(conns, a, mid.0)) by {
                            assert(conns[j].activity_id.0 == a);
                        }
                    }
                }
                assert(m_dir_is(
                    m2.conns,
                    a,
                    mid.0,
                    if model_has_conn(m1.conns, a, mid.0) {
                        Direction::TwoWay
                    } else {
                        Direction::MutexToActivity
                    },
                ));
                if d == Direction::TwoWay {
                } else {
                    assert(d == Direction::MutexToActivity);
                }
            } else {
                // an output-only record: phase one already placed it and
                // this pass leaves it alone
                assert(g_out(conns, a, mid.0)) by {
                    assert(conns[j].activity_id.0 == a);
                }
                assert(model_has_conn(m1.conns, a, mid.0));
                let w = choose|w: int|
                    0 <= w < m.conns.len() && (#[trigger] m.conns[w]).activity_id == a
                        && m.conns[w].mutex_id == mid.0;
                assert(m.conns[w].direction == Direction::ActivityToMutex);
                assert(m_dir_is(m1.conns, a, mid.0, Direction::ActivityToMutex));
                assert(!ids.contains(a)) by {
                    if ids.contains(a) {
                        let k = choose|k: int| 0 <= k < ids.len() && ids[k] == a;
                        assert(g_in(conns, a, mid.0));
                        let j2 = choose|j2: int|
                            0 <= j2 < conns.len() && (#[trigger] conns[j2]).activity_id.0 == a
                                && conns[j2].mutex_id.0 == mid.0 && conns[j2].connection.direction
                                != Direction::ActivityToMutex;
                        assert(j2 != j);
                        assert(conns[j2].activity_id
                            == crate::graph::ActivityNodeId(conns[j2].activity_id.0));
                        assert(conns[j].activity_id
                            == crate::graph::ActivityNodeId(conns[j].activity_id.0));
                        assert(conns[j2].mutex_id == MutexNodeId(conns[j2].mutex_id.0));
                        assert(conns[j].mutex_id == MutexNodeId(conns[j].mutex_id.0));
                        if j2 < j {
                            assert(!(conns[j2].activity_id == conns[j].activity_id
                                && conns[j2].mutex_id == conns[j].mutex_id));
                        } else {
                            assert(!(conns[j].activity_id == conns[j2].activity_id
                                && conns[j].mutex_id == conns[j2].mutex_id));
                        }
                        assert(false);
                    }
                }
                assert(m_dir_is(m2.conns, a, mid.0, d) == m_dir_is(m1.conns, a, mid.0, d));
            }
        }
        // invariants at the next index
        assert(phase2_recs(m2.conns, muts, i + 1, conns)) by {
            assert forall|j: int| 0 <= j < m2.conns.len() implies {
                let c = #[trigger] m2.conns[j];
                if mutex_processed(muts, i + 1, c.mutex_id) {
                    g_dir_is(conns, c.activity_id, c.mutex_id, c.direction)
                } else {
                    c.direction == Direction::ActivityToMutex && g_out(
                        conns,
                        c.activity_id,
                        c.mutex_id,
                    )
                }
            } by {
                let c = m2.conns[j];
                if c.mutex_id == mid.0 && ids.contains(c.activity_id) && c.direction == (
                if model_has_conn(m1.conns, c.activity_id, mid.0) {
                    Direction::TwoWay
                } else {
                    Direction::MutexToActivity
                }) {
                    // touched this pass: direction mirrors the graph
                    let k = choose|k: int| 0 <= k < ids.len() && ids[k] == c.activity_id;
                    assert(g_in(conns, c.activity_id, mid.0));
                    let j2 = choose|j2: int|
                        0 <= j2 < conns.len() && (#[trigger] conns[j2]).activity_id.0
                            == c.activity_id && conns[j2].mutex_id.0 == mid.0
                            && conns[j2].connection.direction != Direction::ActivityToMutex;
                    assert(model_has_conn(m1.conns, c.activity_id, mid.0) == g_out(
                        conns,
                        c.activity_id,
                        mid.0,
                    ));
                    if model_has_conn(m1.conns, c.activity_id, mid.0) {
                        // both sides carried: the graph record is two-way
                        assert(conns[j2].connection.direction == Direction::TwoWay) by {
                            let j3 = choose|j3: int|
                                0 <= j3 < conns.len() && (#[trigger] conns[j3]).activity_id.0
                                    == c.activity_id && conns[j3].mutex_id.0 == mid.0
                                    && conns[j3].connection.direction
                                    != Direction::MutexToActivity;
                            assert(j3 == j2) by {
                                if j3 != j2 {
                                    assert(conns[j3].activity_id
                                        == crate::graph::ActivityNodeId(conns[j3].activity_id.0));
                                    assert(conns[j2].activity_id
                                        == crate::graph::ActivityNodeId(conns[j2].activity_id.0));
                                    assert(conns[j3].mutex_id
                                        == MutexNodeId(conns[j3].mutex_id.0));
                                    assert(conns[j2].mutex_id
                                        == MutexNodeId(conns[j2].mutex_id.0));
                                    if j3 < j2 {
                                        assert(!(conns[j3].activity_id == conns[j2].activity_id
                                            && conns[j3].mutex_id == conns[j2].mutex_id));
                                    } else {
                                        assert(!(conns[j2].activity_id == conns[j3].activity_id
                                            && conns[j2].mutex_id == conns[j3].mutex_id));
                                    }
                                    assert(false);
                                }
                            }
                        }
                        assert(g_dir_is(conns, c.activity_id, c.mutex_id, Direction::TwoWay)) by {
                            assert(conns[j2].activity_id.0 == c.activity_id);
                        }
                    } else {
                        assert(conns[j2].connection.direction == Direction::MutexToActivity);
                        assert(g_dir_is(
                            conns,
                            c.activity_id,
                            c.mutex_id,
                            Direction::MutexToActivity,
                        )) by {
                            assert(conns[j2].activity_id.0 == c.activity_id);
                        }
                    }
                    assert(mutex_processed(muts, i + 1, c.mutex_id));
                } else {
                    assert(m1.conns.contains(c));
                    let w = choose|w: int| 0 <= w < m1.conns.len() && m1.conns[w] == c;
                    assert(m.conns[w] == c);
                    if mutex_processed(muts, i, c.mutex_id) {
                        assert(mutex_processed(muts, i + 1, c.mutex_id));
                    } else if c.mutex_id == mid.0 {
                        // an untouched record of this mutex: output-only,
                        // and the graph's record is output-only too
                        assert(c.direction == Direction::ActivityToMutex);
                        assert(g_out(conns, c.activity_id, c.mutex_id));
                        let j2 = choose|j2: int|
                            0 <= j2 < conns.len() && (#[trigger] conns[j2]).activity_id.0
                                == c.activity_id && conns[j2].mutex_id.0 == mid.0
                                && conns[j2].connection.direction
                                != Direction::MutexToActivity;
                        assert(conns[j2].connection.direction == Direction::ActivityToMutex) by {
                            if conns[j2].connection.direction != Direction::ActivityToMutex {
                                assert(g_in(conns, c.activity_id, mid.0)) by {
                                    assert(conns[j2].activity_id.0 == c.activity_id);
                                }
                                assert(ids.contains(c.activity_id));
                                assert(false);
                            }
                        }
                        assert(g_dir_is(
                            conns,
                            c.activity_id,
                            c.mutex_id,
                            Direction::ActivityToMutex,
                        )) by {
                            assert(conns[j2].activity_id.0 == c.activity_id);
                        }
                        assert(mutex_processed(muts, i + 1, c.mutex_id));
                    } else {
                        assert(!mutex_processed(muts, i + 1, c.mutex_id));
                    }
                }
            }
        }
        assert(phase2_unproc_covered(m2.conns, muts, i + 1, conns)) by {
            assert forall|j: int|
                0 <= j < conns.len() && !mutex_processed(
                    muts,
                    i + 1,
                    (#[trigger] conns[j]).mutex_id.0,
                ) && conns[j].connection.direction != Direction::MutexToActivity
                implies model_has_conn(m2.conns, conns[j].activity_id.0, conns[j].mutex_id.0) by {
                assert(!mutex_processed(muts, i, conns[j].mutex_id.0));
                assert(model_has_conn(m.conns, conns[j].activity_id.0, conns[j].mutex_id.0));
                let w = choose|w: int|
                    0 <= w < m.conns.len() && (#[trigger] m.conns[w]).activity_id
                        == conns[j].activity_id.0 && m.conns[w].mutex_id == conns[j].mutex_id.0;
                assert(conns[j].mutex_id.0 != mid.0);
                lemma_has_from_dirs(m1.conns, conns[j].activity_id.0, conns[j].mutex_id.0);
                lemma_has_from_dirs(m2.conns, conns[j].activity_id.0, conns[j].mutex_id.0);
                assert(m_dir_is(
                    m1.conns,
                    conns[j].activity_id.0,
                    conns[j].mutex_id.0,
                    m.conns[w].direction,
                ));
                assert(m_dir_is(
                    m2.conns,
                    conns[j].activity_id.0,
                    conns[j].mutex_id.0,
                    m.conns[w].direction,
                ));
            }
        }
        assert(phase2_proc_covered(m2.conns, muts, i + 1, conns)) by {
            assert forall|j: int|
                0 <= j < conns.len() && mutex_processed(
                    muts,
                    i + 1,
                    (#[trigger] conns[j]).mutex_id.0,
                ) implies m_dir_is(
                m2.conns,
                conns[j].activity_id.0,
                conns[j].mutex_id.0,
                conns[j].connection.direction,
            ) by {
                if conns[j].mutex_id.0 == mid.0 {
                } else {
                    assert(mutex_processed(muts, i, conns[j].mutex_id.0));
                    assert(m_dir_is(
                        m.conns,
                        conns[j].activity_id.0,
                        conns[j].mutex_id.0,
                        conns[j].connection.direction,
                    ));
                    assert(m_dir_is(
                        m2.conns,
                        conns[j].activity_id.0,
                        conns[j].mutex_id.0,
                        conns[j].connection.direction,
                    ));
                }
            }
        }
        lemma_phase2(m2, muts, i + 1, conns);
    }
}

/// The round trip at the record level: folding the import's operations
/// over a graph's registries and exported id lists — exactly what
/// importing the exported lines does, by the line lemmas above —
/// rebuilds the same activities and mutexes in the same order, and
/// exactly the original connection pairs with their original
/// directions. Dangling records (an endpoint that no longer exists) are
/// excluded: the exporter never writes them, so they do not survive.
pub proof fn lemma_round_trip_records(g: Graph)
    requires
        g.wf_nodes(),
        no_dangling(g),
    ensures
        ({
            let m = model_round_trip(g);
            &&& m.acts == proj_graph(g).acts
            &&& m.muts == proj_graph(g).muts
            &&& model_pairs_unique(m.conns)
            &&& forall|j: int|
                0 <= j < g.connections@.len() ==> m_dir_is(
                    m.conns,
                    (#[trigger] g.connections@[j]).activity_id.0,
                    g.connections@[j].mutex_id.0,
                    g.connections@[j].connection.direction,
                )
            &&& forall|j: int|
                0 <= j < m.conns.len() ==> g_dir_is(
                    g.connections@,
                    (#[trigger] m.conns[j]).activity_id,
                    m.conns[j].mutex_id,
                    m.conns[j].direction,
                )
        }),
{
    let acts = g.activity_nodes@;
    let muts = g.mutex_nodes@;
    let conns = g.connections@;
    let m0 = empty_model();
    assert(m0.acts =~= acts.subrange(0, 0).map_values(|e: ActivityEntry| proj_act(e)));
    lemma_phase1(m0, acts, 0, conns);
    let m1 = model_import_acts(m0, acts, 0, conns);
    // every record's activity exists, so phase one covered every output
    // record of the graph
    assert(phase2_recs(m1.conns, muts, 0, conns)) by {
        assert forall|j: int| 0 <= j < m1.conns.len() implies {
            let c = #[trigger] m1.conns[j];
            if mutex_processed(muts, 0, c.mutex_id) {
                g_dir_is(conns, c.activity_id, c.mutex_id, c.direction)
            } else {
                c.direction == Direction::ActivityToMutex && g_out(
                    conns,
                    c.activity_id,
                    c.mutex_id,
                )
            }
        } by {
            assert(!mutex_processed(muts, 0, m1.conns[j].mutex_id));
        }
    }
    assert(phase2_unproc_covered(m1.conns, muts, 0, conns)) by {
        assert forall|j: int|
            0 <= j < conns.len() && !mutex_processed(muts, 0, (#[trigger] conns[j]).mutex_id.0)
                && conns[j].connection.direction != Direction::MutexToActivity
            implies model_has_conn(m1.conns, conns[j].activity_id.0, conns[j].mutex_id.0) by {
            assert(has_act(acts, conns[j].activity_id));
            let t = choose|t: int| 0 <= t < acts.len() && (#[trigger] acts[t]).id
                == conns[j].activity_id;
            assert(phase1_covered(m1.conns, acts, acts.len() as int, conns));
            assert(conns[j].activity_id.0 == acts[t].id.0);
        }
    }
    assert(phase2_proc_covered(m1.conns, muts, 0, conns)) by {
        assert forall|j: int|
            0 <= j < conns.len() && mutex_processed(muts, 0, (#[trigger] conns[j]).mutex_id.0)
            implies m_dir_is(
            m1.conns,
            conns[j].activity_id.0,
            conns[j].mutex_id.0,
            conns[j].connection.direction,
        ) by {
            assert(false);
        }
    }
    assert(m1.muts =~= muts.subrange(0, 0).map_values(|e: MutexEntry| proj_mut(e)));
    lemma_phase2(m1, muts, 0, conns);
    let m2 = model_import_muts(m1, muts, 0, conns);
    assert(m2 == model_round_trip(g));
    // claims about the graph's records: every mutex exists, so every
    // record's mutex was processed
    assert forall|j: int|
        0 <= j < conns.len() implies m_dir_is(
        m2.conns,
        (#[trigger] conns[j]).activity_id.0,
        conns[j].mutex_id.0,
        conns[j].connection.direction,
    ) by {
        assert(has_mutex(muts, conns[j].mutex_id));
        let t = choose|t: int| 0 <= t < muts.len() && (#[trigger] muts[t]).id
            == conns[j].mutex_id;
        assert(mutex_processed(muts, muts.len() as int, conns[j].mutex_id.0)) by {
            assert(muts[t].id.0 == conns[j].mutex_id.0);
        }
    }
    // claims about the shape's records: each one mirrors a graph record
    assert forall|j: int|
        0 <= j < m2.conns.len() implies g_dir_is(
        conns,
        (#[trigger] m2.conns[j]).activity_id,
        m2.conns[j].mutex_id,
        m2.conns[j].direction,
    ) by {
        let c = m2.conns[j];
        if mutex_processed(muts, muts.len() as int, c.mutex_id) {
        } else {
            // its mutex would have to be missing, against the premise
            assert(g_out(conns, c.activity_id, c.mutex_id));
            let j2 = choose|j2: int|
                0 <= j2 < conns.len() && (#[trigger] conns[j2]).activity_id.0 == c.activity_id
                    && conns[j2].mutex_id.0 == c.mutex_id && conns[j2].connection.direction
                    != Direction::MutexToActivity;
            assert(has_mutex(muts, conns[j2].mutex_id));
            let t = choose|t: int| 0 <= t < muts.len() && (#[trigger] muts[t]).id
                == conns[j2].mutex_id;
            assert(mutex_processed(muts, muts.len() as int, c.mutex_id)) by {
                assert(muts[t].id.0 == c.mutex_id);
            }
        }
    }
}


/// No line break anywhere in the sequence.
pub open spec fn no_newline(s: Seq<char>) -> bool {
    forall|i: int| 0 <= i < s.len() ==> (#[trigger] s[i]) != '\n'
}

proof fn lemma_u64_chars_no_newline(n: nat)
    ensures
        no_newline(u64_chars(n)),
{
    lemma_u64_chars_digits(n);
    assert forall|i: int|
        0 <= i < u64_chars(n).len() implies (#[trigger] u64_chars(n)[i]) != '\n' by {
        assert(is_digit(u64_chars(n)[i]));
    }
}

proof fn lemma_coord_chars_no_newline(m: int)
    ensures
        no_newline(coord_chars(m)),
{
    lemma_coord_chars_class(m);
    assert forall|i: int|
        0 <= i < coord_chars(m).len() implies (#[trigger] coord_chars(m)[i]) != '\n' by {
        assert(coord_char_ok(coord_chars(m)[i]));
    }
}

proof fn lemma_join_ids_no_newline(ids: Seq<usize>)
    ensures
        no_newline(join_ids(ids)),
    decreases ids.len(),
{
    reveal_strlit(";");
    if ids.len() == 1 {
        lemma_u64_chars_no_newline(ids[0] as nat);
    } else if ids.len() > 1 {
        lemma_join_ids_no_newline(ids.drop_last());
        lemma_u64_chars_no_newline(ids.last() as nat);
        assert forall|i: int|
            0 <= i < join_ids(ids).len() implies (#[trigger] join_ids(ids)[i]) != '\n' by {
            let a = join_ids(ids.drop_last());
            let b = u64_chars(ids.last() as nat);
            assert(join_ids(ids) == a + ";"@ + b);
            if i < a.len() {
                assert(join_ids(ids)[i] == a[i]);
            } else if i < a.len() + 1 {
                assert(join_ids(ids)[i] == ';');
            } else {
                assert(join_ids(ids)[i] == b[i - a.len() - 1]);
            }
        }
    }
}

/// An exported `Task` line body holds no line break, and does not end
/// in a carriage return.
proof fn lemma_task_body_chars(e: ActivityEntry, ids: Seq<usize>)
    requires
        name_survives_codec(e.node.task_name@),
        name_survives_codec(e.node.activity_name@),
    ensures
        no_newline(task_line_body(e, ids)),
        task_line_body(e, ids).len() > 0,
        task_line_body(e, ids).last() != '\r',
{
    reveal_strlit("Task");
    reveal_strlit(";");
    let body = task_line_body(e, ids);
    lemma_coord_chars_no_newline(e.node.pos.x_milli as int);
    lemma_coord_chars_no_newline(e.node.pos.y_milli as int);
    lemma_u64_chars_no_newline(e.id.0 as nat);
    lemma_u64_chars_no_newline(e.node.priority as nat);
    lemma_u64_chars_no_newline(e.node.duration as nat);
    lemma_u64_chars_no_newline(e.node.remaining_duration as nat);
    lemma_join_ids_no_newline(ids);
    lemma_body_reassoc(e, ids);
    let s = ";"@;
    let r1 = coord_chars(e.node.pos.x_milli as int) + s + (coord_chars(e.node.pos.y_milli as int)
        + s + (u64_chars(e.id.0 as nat) + s + (e.node.task_name@ + s + (e.node.activity_name@
        + s + (u64_chars(e.node.priority as nat) + s + (u64_chars(e.node.duration as nat) + s + (
    u64_chars(e.node.remaining_duration as nat) + s + join_ids(ids))))))));
    assert(body == "Task"@ + s + r1);
    assert forall|i: int| 0 <= i < body.len() implies (#[trigger] body[i]) != '\n' by {}
    // the last character is a separator (empty id list) or a digit
    let join = join_ids(ids);
    if ids.len() == 0 {
        assert(join.len() == 0);
        assert(body.last() == ';');
    } else {
        assert(join.len() > 0) by {
            if ids.len() == 1 {
            } else {
                lemma_u64_chars_digits(ids.last() as nat);
            }
            lemma_u64_chars_digits(ids[0] as nat);
        }
        assert(body.last() == join.last());
        assert(is_digit(join.last())) by {
            if ids.len() == 1 {
                lemma_u64_chars_digits(ids[0] as nat);
            } else {
                let b = u64_chars(ids.last() as nat);
                lemma_u64_chars_digits(ids.last() as nat);
                assert(join == join_ids(ids.drop_last()) + s + b);
                assert(join.last() == b.last());
            }
        }
    }
}

/// An exported `Mutex` line body holds no line break, and does not end
/// in a carriage return.
proof fn lemma_mutex_body_chars(e: MutexEntry, ids: Seq<usize>)
    ensures
        no_newline(mutex_line_body(e, ids)),
        mutex_line_body(e, ids).len() > 0,
        mutex_line_body(e, ids).last() != '\r',
{
    reveal_strlit("Mutex");
    reveal_strlit(";");
    let body = mutex_line_body(e, ids);
    lemma_coord_chars_no_newline(e.node.pos.x_milli as int);
    lemma_coord_chars_no_newline(e.node.pos.y_milli as int);
    lemma_u64_chars_no_newline(e.id.0 as nat);
    lemma_u64_chars_no_newline(e.node.value as nat);
    lemma_join_ids_no_newline(ids);
    lemma_mutex_body_reassoc(e, ids);
    let s = ";"@;
    let r1 = coord_chars(e.node.pos.x_milli as int) + s + (coord_chars(e.node.pos.y_milli as int)
        + s + (u64_chars(e.id.0 as nat) + s + (u64_chars(e.node.value as nat) + s + join_ids(
        ids,
    ))));
    assert(body == "Mutex"@ + s + r1);
    assert forall|i: int| 0 <= i < body.len() implies (#[trigger] body[i]) != '\n' by {}
    let join = join_ids(ids);
    if ids.len() == 0 {
        assert(join.len() == 0);
        assert(body.last() == ';');
    } else {
        assert(join.len() > 0) by {
            if ids.len() == 1 {
            } else {
                lemma_u64_chars_digits(ids.last() as nat);
            }
            lemma_u64_chars_digits(ids[0] as nat);
        }
        assert(body.last() == join.last());
        assert(is_digit(join.last())) by {
            if ids.len() == 1 {
                lemma_u64_chars_digits(ids[0] as nat);
            } else {
                let b = u64_chars(ids.last() as nat);
                lemma_u64_chars_digits(ids.last() as nat);
                assert(join == join_ids(ids.drop_last()) + s + b);
                assert(join.last() == b.last());
            }
        }
    }
}

/// Importing a text that starts with one full line: the line is read,
/// then the rest.
proof fn lemma_import_peel_line(m: GraphModel, body: Seq<char>, rest: Seq<char>, line_no: nat)
    requires
        no_newline(body),
        body.len() == 0 || body.last() != '\r',
    ensures
        crate::codec::import_lines(m, body + "\n"@ + rest, line_no) == match import_line(
            m,
            body,
            line_no,
        ) {
            Ok(m2) => crate::codec::import_lines(m2, rest, line_no + 1),
            Err(e) => Err(e),
        },
{
    reveal_strlit("\n");
    let text = body + "\n"@ + rest;
    assert(text.len() > 0);
    assert forall|j: int| 0 <= j < body.len() implies text[j] != '\n' by {
        assert(text[j] == body[j]);
    }
    assert(text[body.len() as int] == '\n');
    lemma_first_index_char(text, '\n', body.len() as int);
    let di = first_index_of(text, '\n');
    assert(di == body.len());
    assert(text.subrange(0, di) =~= body);
    assert(crate::codec::strip_cr(body) == body);
    assert(text.subrange(di + 1, text.len() as int) =~= rest);
}


/// A line whose first field matches neither tag is skipped.
proof fn lemma_skipped_line(m: GraphModel, line: Seq<char>, line_no: nat)
    requires
        !tag_is(line_fields(line)[0], "task"@),
        !tag_is(line_fields(line)[0], "mutex"@),
    ensures
        import_line(m, line, line_no) == Ok::<GraphModel, Seq<char>>(m),
{
}

/// The general header line is skipped: its tag field is `Type`.
proof fn lemma_header_type_skipped(m: GraphModel, line_no: nat)
    ensures
        import_line(
            m,
            "Type;Position X;Position Y;ID;Parameters...\n"@.drop_last(),
            line_no,
        ) == Ok::<GraphModel, Seq<char>>(m),
{
    reveal_strlit("Type;Position X;Position Y;ID;Parameters...\n");
    reveal_strlit("task");
    reveal_strlit("mutex");
    let whole = "Type;Position X;Position Y;ID;Parameters...\n"@;
    let line = whole.drop_last();
    assert forall|j: int| 0 <= j < 4 implies line[j] != ';' by {
        assert(line[j] == whole[j]);
    }
    assert(line[4] == ';');
    lemma_first_index_char(line, ';', 4);
    let f = line.subrange(0, 4);
    assert(f[0] == 'T' && f[1] == 'y' && f[2] == 'p' && f[3] == 'e');
    assert(spec_trim(f) == f) by {
        assert(!is_space(f[0]) && !is_space(f[3]));
        lemma_trim_noop(f);
    }
    let vals = line_fields(line);
    assert(vals[0] == f);
    assert(!tag_is(vals[0], "task"@)) by {
        assert(!eq_ci(f[1], "task"@[1]));
    }
    assert(!tag_is(vals[0], "mutex"@)) by {
        assert(f.len() != "mutex"@.len());
    }
    lemma_skipped_line(m, line, line_no);
}

/// The quoted `Task` header is skipped: its tag field starts with a
/// quote and is six characters long.
proof fn lemma_header_task_skipped(m: GraphModel, line_no: nat)
    ensures
        import_line(
            m,
            "\"Task\";Position X;Position Y;ID;Task Name;Activity Name;Priority;Duration;Remaining Duration;Connected Mutex IDs...\n"@.drop_last(),
            line_no,
        ) == Ok::<GraphModel, Seq<char>>(m),
{
    reveal_strlit(
        "\"Task\";Position X;Position Y;ID;Task Name;Activity Name;Priority;Duration;Remaining Duration;Connected Mutex IDs...\n",
    );
    reveal_strlit("task");
    reveal_strlit("mutex");
    let whole =
        "\"Task\";Position X;Position Y;ID;Task Name;Activity Name;Priority;Duration;Remaining Duration;Connected Mutex IDs...\n"@;
    let line = whole.drop_last();
    assert forall|j: int| 0 <= j < 6 implies line[j] != ';' by {
        assert(line[j] == whole[j]);
    }
    assert(line[6] == ';');
    lemma_first_index_char(line, ';', 6);
    let f = line.subrange(0, 6);
    assert(spec_trim(f) == f) by {
        assert(!is_space(f[0]) && !is_space(f[5]));
        lemma_trim_noop(f);
    }
    let vals = line_fields(line);
    assert(vals[0] == f);
    assert(!tag_is(vals[0], "task"@)) by {
        assert(f.len() != "task"@.len());
    }
    assert(!tag_is(vals[0], "mutex"@)) by {
        assert(f.len() != "mutex"@.len());
    }
    lemma_skipped_line(m, line, line_no);
}

/// The quoted `Mutex` header is skipped likewise.
proof fn lemma_header_mutex_skipped(m: GraphModel, line_no: nat)
    ensures
        import_line(
            m,
            "\"Mutex\";Position X;Position Y;ID;Mutex Value;Connected Task IDs...\n"@.drop_last(),
            line_no,
        ) == Ok::<GraphModel, Seq<char>>(m),
{
    reveal_strlit("\"Mutex\";Position X;Position Y;ID;Mutex Value;Connected Task IDs...\n");
    reveal_strlit("task");
    reveal_strlit("mutex");
    let whole = "\"Mutex\";Position X;Position Y;ID;Mutex Value;Connected Task IDs...\n"@;
    let line = whole.drop_last();
    assert forall|j: int| 0 <= j < 7 implies line[j] != ';' by {
        assert(line[j] == whole[j]);
    }
    assert(line[7] == ';');
    lemma_first_index_char(line, ';', 7);
    let f = line.subrange(0, 7);
    assert(spec_trim(f) == f) by {
        assert(!is_space(f[0]) && !is_space(f[6]));
        lemma_trim_noop(f);
    }
    let vals = line_fields(line);
    assert(vals[0] == f);
    assert(!tag_is(vals[0], "task"@)) by {
        assert(f.len() != "task"@.len());
    }
    assert(!tag_is(vals[0], "mutex"@)) by {
        assert(f.len() != "mutex"@.len());
    }
    lemma_skipped_line(m, line, line_no);
}

/// The block of `Task` lines, taken apart from the front.
proof fn lemma_task_lines_front(acts: Seq<ActivityEntry>, conns: Seq<ConnectionEntry>)
    requires
        acts.len() >= 1,
    ensures
        crate::codec::task_lines_chars(acts, conns) == crate::codec::task_line_chars(
            acts[0],
            a2m_ids(conns, acts[0].id),
        ) + crate::codec::task_lines_chars(acts.drop_first(), conns),
    decreases acts.len(),
{
    if acts.len() == 1 {
        assert(acts.drop_last() =~= Seq::<ActivityEntry>::empty());
        assert(acts.drop_first() =~= Seq::<ActivityEntry>::empty());
        assert(crate::codec::task_lines_chars(Seq::<ActivityEntry>::empty(), conns)
            =~= Seq::<char>::empty());
        assert(crate::codec::task_lines_chars(acts, conns) =~= crate::codec::task_line_chars(
            acts[0],
            a2m_ids(conns, acts[0].id),
        ) + crate::codec::task_lines_chars(acts.drop_first(), conns));
    } else {
        lemma_task_lines_front(acts.drop_last(), conns);
        assert(acts.drop_last()[0] == acts[0]);
        assert(acts.drop_last().drop_first() =~= acts.drop_first().drop_last());
        assert(acts.drop_first().last() == acts.last());
        assert(crate::codec::task_lines_chars(acts, conns) =~= crate::codec::task_line_chars(
            acts[0],
            a2m_ids(conns, acts[0].id),
        ) + crate::codec::task_lines_chars(acts.drop_first(), conns));
    }
}

/// The block of `Mutex` lines, taken apart from the front.
proof fn lemma_mutex_lines_front(muts: Seq<MutexEntry>, conns: Seq<ConnectionEntry>)
    requires
        muts.len() >= 1,
    ensures
        crate::codec::mutex_lines_chars(muts, conns) == crate::codec::mutex_line_chars(
            muts[0],
            m2a_ids(conns, muts[0].id),
        ) + crate::codec::mutex_lines_chars(muts.drop_first(), conns),
    decreases muts.len(),
{
    if muts.len() == 1 {
        assert(muts.drop_last() =~= Seq::<MutexEntry>::empty());
        assert(muts.drop_first() =~= Seq::<MutexEntry>::empty());
        assert(crate::codec::mutex_lines_chars(Seq::<MutexEntry>::empty(), conns)
            =~= Seq::<char>::empty());
        assert(crate::codec::mutex_lines_chars(muts, conns) =~= crate::codec::mutex_line_chars(
            muts[0],
            m2a_ids(conns, muts[0].id),
        ) + crate::codec::mutex_lines_chars(muts.drop_first(), conns));
    } else {
        lemma_mutex_lines_front(muts.drop_last(), conns);
        assert(muts.drop_last()[0] == muts[0]);
        assert(muts.drop_last().drop_first() =~= muts.drop_first().drop_last());
        assert(muts.drop_first().last() == muts.last());
        assert(crate::codec::mutex_lines_chars(muts, conns) =~= crate::codec::mutex_line_chars(
            muts[0],
            m2a_ids(conns, muts[0].id),
        ) + crate::codec::mutex_lines_chars(muts.drop_first(), conns));
    }
}

/// Shifting the phase-one fold's start and dropping the entries before
/// it are the same thing.
proof fn lemma_import_acts_shift(
    m: GraphModel,
    acts: Seq<ActivityEntry>,
    i: int,
    conns: Seq<ConnectionEntry>,
)
    requires
        1 <= i <= acts.len(),
    ensures
        model_import_acts(m, acts, i, conns) == model_import_acts(
            m,
            acts.drop_first(),
            i - 1,
            conns,
        ),
    decreases acts.len() - i,
{
    if i < acts.len() {
        assert(acts.drop_first()[i - 1] == acts[i]);
        let m2 = model_connect_ids(
            model_add_act(m, proj_act(acts[i])),
            acts[i].id.0,
            a2m_ids(conns, acts[i].id),
        );
        lemma_import_acts_shift(m2, acts, i + 1, conns);
    }
}

proof fn lemma_import_muts_shift(
    m: GraphModel,
    muts: Seq<MutexEntry>,
    i: int,
    conns: Seq<ConnectionEntry>,
)
    requires
        1 <= i <= muts.len(),
    ensures
        model_import_muts(m, muts, i, conns) == model_import_muts(
            m,
            muts.drop_first(),
            i - 1,
            conns,
        ),
    decreases muts.len() - i,
{
    if i < muts.len() {
        assert(muts.drop_first()[i - 1] == muts[i]);
        let m2 = model_connect_aids(
            model_add_mut(m, proj_mut(muts[i])),
            muts[i].id.0,
            m2a_ids(conns, muts[i].id),
        );
        lemma_import_muts_shift(m2, muts, i + 1, conns);
    }
}


/// Well-behaved nodes for the codec: names that survive, and ids below
/// the allocator's ceiling.
pub open spec fn acts_exportable(acts: Seq<ActivityEntry>) -> bool {
    forall|t: int|
        0 <= t < acts.len() ==> {
            let e = #[trigger] acts[t];
            &&& name_survives_codec(e.node.task_name@)
            &&& name_survives_codec(e.node.activity_name@)
            &&& e.id.0 < usize::MAX
            &&& e.node.wf()
        }
}

pub open spec fn muts_exportable(muts: Seq<MutexEntry>) -> bool {
    forall|t: int|
        0 <= t < muts.len() ==> (#[trigger] muts[t]).id.0 < usize::MAX && muts[t].node.wf()
}

/// Importing the block of exported `Task` lines performs exactly the
/// phase-one model operations, then goes on with the rest of the text.
proof fn lemma_import_task_block(
    m: GraphModel,
    acts: Seq<ActivityEntry>,
    conns: Seq<ConnectionEntry>,
    tail: Seq<char>,
    line_no: nat,
)
    requires
        acts_exportable(acts),
    ensures
        crate::codec::import_lines(
            m,
            crate::codec::task_lines_chars(acts, conns) + tail,
            line_no,
        ) == crate::codec::import_lines(
            model_import_acts(m, acts, 0, conns),
            tail,
            line_no + acts.len(),
        ),
    decreases acts.len(),
{
    if acts.len() == 0 {
        assert(crate::codec::task_lines_chars(acts, conns) + tail =~= tail);
    } else {
        let e = acts[0];
        let ids = a2m_ids(conns, e.id);
        let body = task_line_body(e, ids);
        lemma_task_lines_front(acts, conns);
        let rest_text = crate::codec::task_lines_chars(acts.drop_first(), conns) + tail;
        assert(crate::codec::task_lines_chars(acts, conns) + tail =~= body + "\n"@
            + rest_text) by {
            assert(crate::codec::task_line_chars(e, ids) == body + "\n"@);
        }
        lemma_task_body_chars(e, ids);
        lemma_import_peel_line(m, body, rest_text, line_no);
        lemma_task_line_round_trip(m, e, ids, line_no);
        let m2 = model_connect_ids(model_add_act(m, proj_act(e)), e.id.0, ids);
        assert(forall|t: int|
            0 <= t < acts.drop_first().len() ==> #[trigger] acts.drop_first()[t] == acts[t + 1]);
        lemma_import_task_block(m2, acts.drop_first(), conns, tail, line_no + 1);
        lemma_import_acts_shift(m2, acts, 1, conns);
        assert(model_import_acts(m, acts, 0, conns) == model_import_acts(
            m2,
            acts.drop_first(),
            0,
            conns,
        ));
    }
}

/// Importing the block of exported `Mutex` lines performs exactly the
/// phase-two model operations.
proof fn lemma_import_mutex_block(
    m: GraphModel,
    muts: Seq<MutexEntry>,
    conns: Seq<ConnectionEntry>,
    tail: Seq<char>,
    line_no: nat,
)
    requires
        muts_exportable(muts),
    ensures
        crate::codec::import_lines(
            m,
            crate::codec::mutex_lines_chars(muts, conns) + tail,
            line_no,
        ) == crate::codec::import_lines(
            model_import_muts(m, muts, 0, conns),
            tail,
            line_no + muts.len(),
        ),
    decreases muts.len(),
{
    if muts.len() == 0 {
        assert(crate::codec::mutex_lines_chars(muts, conns) + tail =~= tail);
    } else {
        let e = muts[0];
        let ids = m2a_ids(conns, e.id);
        let body = mutex_line_body(e, ids);
        lemma_mutex_lines_front(muts, conns);
        let rest_text = crate::codec::mutex_lines_chars(muts.drop_first(), conns) + tail;
        assert(crate::codec::mutex_lines_chars(muts, conns) + tail =~= body + "\n"@
            + rest_text) by {
            assert(crate::codec::mutex_line_chars(e, ids) == body + "\n"@);
        }
        lemma_mutex_body_chars(e, ids);
        lemma_import_peel_line(m, body, rest_text, line_no);
        lemma_mutex_line_round_trip(m, e, ids, line_no);
        let m2 = model_connect_aids(model_add_mut(m, proj_mut(e)), e.id.0, ids);
        assert(forall|t: int|
            0 <= t < muts.drop_first().len() ==> #[trigger] muts.drop_first()[t] == muts[t + 1]);
        lemma_import_mutex_block(m2, muts.drop_first(), conns, tail, line_no + 1);
        lemma_import_muts_shift(m2, muts, 1, conns);
        assert(model_import_muts(m, muts, 0, conns) == model_import_muts(
            m2,
            muts.drop_first(),
            0,
            conns,
        ));
    }
}

/// The round trip: importing the full exported text of a well-behaved
/// graph succeeds and rebuilds its persisted shape — the same
/// activities and mutexes, in order, with their ids, positions, names,
/// priorities, durations, remaining durations and token counts, and
/// exactly the original connection pairs with their original
/// directions. Names must not hold the separator or a line break, nor
/// begin or end in whitespace (`"a;b"` as a task name defeats the
/// round trip, since the exporter does not escape fields), and every
/// connection record must have both endpoints present (the exporter
/// never writes dangling records).
#[verifier::rlimit(100)]
#[verifier::spinoff_prover]
pub proof fn lemma_export_import_round_trip(g: Graph)
    requires
        g.wf_nodes(),
        no_dangling(g),
        acts_exportable(g.activity_nodes@),
        muts_exportable(g.mutex_nodes@),
    ensures
        crate::codec::spec_import(crate::codec::export_chars(g)) == Ok::<
            GraphModel,
            Seq<char>,
        >(model_round_trip(g)),
        ({
            let m = model_round_trip(g);
            &&& m.acts == proj_graph(g).acts
            &&& m.muts == proj_graph(g).muts
            &&& model_pairs_unique(m.conns)
            &&& forall|j: int|
                0 <= j < g.connections@.len() ==> m_dir_is(
                    m.conns,
                    (#[trigger] g.connections@[j]).activity_id.0,
                    g.connections@[j].mutex_id.0,
                    g.connections@[j].connection.direction,
                )
            &&& forall|j: int|
                0 <= j < m.conns.len() ==> g_dir_is(
                    g.connections@,
                    (#[trigger] m.conns[j]).activity_id,
                    m.conns[j].mutex_id,
                    m.conns[j].direction,
                )
        }),
{
    reveal_strlit("Type;Position X;Position Y;ID;Parameters...\n");
    reveal_strlit(
        "\"Task\";Position X;Position Y;ID;Task Name;Activity Name;Priority;Duration;Remaining Duration;Connected Mutex IDs...\n",
    );
    reveal_strlit("\"Mutex\";Position X;Position Y;ID;Mutex Value;Connected Task IDs...\n");
    reveal_strlit("\n");
    let acts = g.activity_nodes@;
    let muts = g.mutex_nodes@;
    let conns = g.connections@;
    let h1 = "Type;Position X;Position Y;ID;Parameters...\n"@;
    let h2 =
        "\"Task\";Position X;Position Y;ID;Task Name;Activity Name;Priority;Duration;Remaining Duration;Connected Mutex IDs...\n"@;
    let h3 = "\"Mutex\";Position X;Position Y;ID;Mutex Value;Connected Task IDs...\n"@;
    let b1 = h1.drop_last();
    let b2 = h2.drop_last();
    let b3 = h3.drop_last();
    let task_block = crate::codec::task_lines_chars(acts, conns);
    let mutex_block = crate::codec::mutex_lines_chars(muts, conns);
    let text = crate::codec::export_chars(g);

    // carve the text into its lines and blocks
    let after_h1 = b2 + "\n"@ + (task_block + (b3 + "\n"@ + (mutex_block
        + Seq::<char>::empty())));
    assert(no_newline(b1) && b1.len() > 0 && b1.last() != '\r') by {
        assert forall|i: int| 0 <= i < b1.len() implies (#[trigger] b1[i]) != '\n' by {
            assert(b1[i] == h1[i]);
        }
    }
    assert(no_newline(b2) && b2.len() > 0 && b2.last() != '\r') by {
        assert forall|i: int| 0 <= i < b2.len() implies (#[trigger] b2[i]) != '\n' by {
            assert(b2[i] == h2[i]);
        }
    }
    assert(no_newline(b3) && b3.len() > 0 && b3.last() != '\r') by {
        assert forall|i: int| 0 <= i < b3.len() implies (#[trigger] b3[i]) != '\n' by {
            assert(b3[i] == h3[i]);
        }
    }
    assert(text =~= b1 + "\n"@ + after_h1) by {
        assert(h1 =~= b1 + "\n"@);
        assert(h2 =~= b2 + "\n"@);
        assert(h3 =~= b3 + "\n"@);
    }

    let m0 = empty_model();
    lemma_import_peel_line(m0, b1, after_h1, 1);
    lemma_header_type_skipped(m0, 1);
    let after_h2 = task_block + (b3 + "\n"@ + (mutex_block + Seq::<char>::empty()));
    assert(after_h1 == b2 + "\n"@ + after_h2);
    lemma_import_peel_line(m0, b2, after_h2, 2);
    lemma_header_task_skipped(m0, 2);
    let tail_t = b3 + "\n"@ + (mutex_block + Seq::<char>::empty());
    lemma_import_task_block(m0, acts, conns, tail_t, 3);
    let m1 = model_import_acts(m0, acts, 0, conns);
    let tail_m = mutex_block + Seq::<char>::empty();
    lemma_import_peel_line(m1, b3, tail_m, 3 + acts.len());
    lemma_header_mutex_skipped(m1, 3 + acts.len());
    lemma_import_mutex_block(m1, muts, conns, Seq::<char>::empty(), 4 + acts.len());
    let m2 = model_import_muts(m1, muts, 0, conns);
    assert(crate::codec::import_lines(m2, Seq::<char>::empty(), 4 + acts.len() + muts.len())
        == Ok::<GraphModel, Seq<char>>(m2));
    assert(m2 == model_round_trip(g));
    assert(crate::codec::spec_import(text) == Ok::<GraphModel, Seq<char>>(m2));
    lemma_round_trip_records(g);
}

} // verus!

//! A profile that is converted to a Chrome trace and back keeps its samples.
use vstd::prelude::*;
use crate::chrome_trace::{
    all_deltas, all_nodes, all_samples, by_time, fitted, is_profile_event, json_profiles, linked,
    nodes_joined, slot, stream_profile, stream_profiles, streams_of, trace_profiles,
};
use crate::cpuprofile::{
    cpu_profile, deltas, law_cpu_totals, lemma_node_index, node_index, values_fit, CpuNodeView,
    CpuProfileView,
};
use crate::demangle::Demangler;
use crate::folded_export::value_at;
use crate::json::{
    as_int, compact_json, distinct_keys, get, int_json, is_plain, member_of, JsonView,
};
use crate::json_text::{as_value, law_plain_settled, text_json};
use crate::json_read::{ints, lemma_member, lemma_no_member, only_member};
use crate::num::is_i64;
use crate::proto::{text_at, ProfileView, SampleView};
use crate::tally::{sum, total};
use crate::to_chrome_trace::{
    count_axis, law_parts_sum, parts, repeats, samples_added, to_us, ConvertOptions,
    TraceFrameView, TraceNodeView, TraceView,
};
use crate::trace_events::{
    chunk_json, empty_stream, event_data, event_json, event_time, events_json, ingested,
    profile_key, raw_node_json, raw_nodes_json, record_events, trace_json, ChunkView, EventView,
    RawNodeView, StreamView,
};
use crate::trace_write::{
    chunk_data_tree, cpu_profile_tree, end_us, frame_tree, id_trees, int_trees, lemma_event_keys,
    lemma_frame_keys, lemma_node_keys, metadata_tree, node_members, node_trees, profile_event_tree,
    start_us, trace_tree, traced, wrapped,
};
use crate::v8::CallFrameView;
use crate::v8_json::frame_json;

verus! {

proof fn lemma_member_at(m: Seq<(Seq<char>, JsonView)>, i: int)
    requires
        distinct_keys(m),
        0 <= i < m.len(),
    ensures
        member_of(m, m[i].0) == Some(m[i].1),
        only_member(m, m[i].0) == Some(m[i].1),
{
    assert forall|k: int| 0 <= k < m.len() && k != i implies (#[trigger] m[k]).0 != m[i].0 by {
        if k < i {
            assert(m[k].0 != m[i].0);
        } else {
            assert(m[i].0 != m[k].0);
        }
    }
    lemma_member(m, i);
}

/// A frame whose numbers are in the range of the V8 format.
pub open spec fn frame_fits(f: TraceFrameView) -> bool {
    i32::MIN <= f.line_number <= i32::MAX && i32::MIN <= f.column_number <= i32::MAX
}

/// The frame that is read back.
pub open spec fn frame_back(f: TraceFrameView) -> CallFrameView {
    CallFrameView {
        function_name: f.function_name,
        url: f.url,
        script_id: compact_json(JsonView::Text("0"@)),
        line_number: f.line_number as i32,
        column_number: f.column_number as i32,
    }
}

proof fn lemma_frame_back(f: TraceFrameView)
    requires
        frame_fits(f),
    ensures
        frame_json(frame_tree(f)) == Some(frame_back(f)),
{
    lemma_frame_keys();
    let m = frame_tree(f)->Object_0;
    assert(distinct_keys(m));
    lemma_member_at(m, 0);
    lemma_member_at(m, 1);
    lemma_member_at(m, 2);
    lemma_member_at(m, 3);
    lemma_member_at(m, 4);
}

/// Node ids: one-based positions.
pub open spec fn ids(s: Seq<usize>) -> Seq<i64> {
    Seq::new(s.len(), |i: int| (s[i] + 1) as i64)
}

proof fn lemma_ids_back(s: Seq<usize>)
    ensures
        ints(JsonView::Array(id_trees(s))) == Some(ids(s)),
{
    let a = id_trees(s);
    assert forall|i: int| 0 <= i < a.len() implies as_int(#[trigger] a[i]) == Some(ids(s)[i]) by {}
    assert(Seq::new(a.len(), |i: int| as_int(a[i]).unwrap()) =~= ids(s));
}

proof fn lemma_ints_back(s: Seq<i64>)
    ensures
        ints(JsonView::Array(int_trees(s))) == Some(s),
{
    let a = int_trees(s);
    assert forall|i: int| 0 <= i < a.len() implies as_int(#[trigger] a[i]) == Some(s[i]) by {}
    assert(Seq::new(a.len(), |i: int| as_int(a[i]).unwrap()) =~= s);
}

/// The node that is read back.
pub open spec fn raw_back(n: TraceNodeView, i: int) -> RawNodeView {
    RawNodeView {
        id: (i + 1) as i64,
        call_frame: frame_back(n.frame),
        children: ids(n.kids),
        parent: None,
    }
}

proof fn lemma_node_back(n: TraceNodeView, i: int)
    requires
        frame_fits(n.frame),
    ensures
        raw_node_json(JsonView::Object(node_members(n, i))) == Some(raw_back(n, i)),
{
    lemma_node_keys();
    reveal_strlit("parent");
    reveal_strlit("callFrame");
    reveal_strlit("children");
    reveal_strlit("id");
    assert("parent"@.len() == 6 && "callFrame"@.len() == 9 && "children"@.len() == 8 && "id"@.len() == 2);
    let m = node_members(n, i);
    assert(distinct_keys(m));
    lemma_member_at(m, 0);
    lemma_member_at(m, 1);
    lemma_no_member(m, "parent"@);
    lemma_frame_back(n.frame);
    lemma_ids_back(n.kids);
    if n.kids.len() == 0 {
        lemma_no_member(m, "children"@);
        assert(ids(n.kids) =~= Seq::<i64>::empty());
    } else {
        lemma_member_at(m, 2);
    }
}

/// The nodes that are read back.
pub open spec fn raws_back(nodes: Seq<TraceNodeView>) -> Seq<RawNodeView> {
    Seq::new(nodes.len(), |i: int| raw_back(nodes[i], i))
}

/// Every frame of a tree fits.
pub open spec fn frames_fit(nodes: Seq<TraceNodeView>) -> bool {
    forall|i: int| 0 <= i < nodes.len() ==> frame_fits((#[trigger] nodes[i]).frame)
}

proof fn lemma_nodes_back(nodes: Seq<TraceNodeView>)
    requires
        frames_fit(nodes),
    ensures
        raw_nodes_json(Some(JsonView::Array(node_trees(nodes)))) == Some(raws_back(nodes)),
{
    let a = node_trees(nodes);
    assert forall|i: int| 0 <= i < a.len() implies raw_node_json(#[trigger] a[i]) == Some(raws_back(nodes)[i]) by {
        assert(frame_fits(nodes[i].frame));
        lemma_node_back(nodes[i], i);
    }
    assert(Seq::new(a.len(), |i: int| raw_node_json(a[i]).unwrap()) =~= raws_back(nodes));
}

/// The piece that is read back.
pub open spec fn chunk_back(t: TraceView, start: i64) -> ChunkView {
    ChunkView { ts: start, nodes: raws_back(t.nodes), samples: ids(t.samples), time_deltas: t.deltas }
}

proof fn lemma_chunk_back(t: TraceView, start: i64, end: i64)
    requires
        frames_fit(t.nodes),
    ensures
        chunk_json(chunk_data_tree(t, start, end), cpu_profile_tree(t, start, end), start) == Some(
            chunk_back(t, start),
        ),
        get(chunk_data_tree(t, start, end), "cpuProfile"@) == Some(cpu_profile_tree(t, start, end)),
        get(chunk_data_tree(t, start, end), "startTime"@) is None,
        get(chunk_data_tree(t, start, end), "endTime"@) is None,
        get(cpu_profile_tree(t, start, end), "endTime"@) == Some(int_json(end)),
{
    lemma_node_keys();
    reveal_strlit("cpuProfile");
    reveal_strlit("samples");
    reveal_strlit("timeDeltas");
    reveal_strlit("startTime");
    reveal_strlit("endTime");
    reveal_strlit("nodes");
    assert("cpuProfile"@.len() == 10 && "samples"@.len() == 7 && "timeDeltas"@.len() == 10);
    assert("startTime"@.len() == 9 && "endTime"@.len() == 7 && "nodes"@.len() == 5);
    assert("samples"@[0] == 's' && "endTime"@[0] == 'e');
    let d = chunk_data_tree(t, start, end)->Object_0;
    let c = cpu_profile_tree(t, start, end)->Object_0;
    assert(distinct_keys(d));
    assert(distinct_keys(c));
    lemma_member_at(d, 0);
    lemma_member_at(d, 1);
    lemma_member_at(d, 2);
    lemma_no_member(d, "startTime"@);
    lemma_no_member(d, "endTime"@);
    lemma_member_at(c, 0);
    lemma_member_at(c, 1);
    lemma_no_member(c, "samples"@);
    lemma_no_member(c, "timeDeltas"@);
    lemma_nodes_back(t.nodes);
    lemma_ids_back(t.samples);
    lemma_ints_back(t.deltas);
    if t.samples.len() == 0 {
        assert(ids(t.samples) =~= Seq::<i64>::empty());
    }
    if t.deltas.len() == 0 {
        assert(t.deltas =~= Seq::<i64>::empty());
    }
}

/// The event that is read back.
pub open spec fn event_back(opts: ConvertOptions, ts: i64, name: Seq<char>, data: JsonView) -> EventView {
    EventView {
        name: Some(name),
        pid: Some(int_json(opts.pid)),
        tid: Some(int_json(opts.tid)),
        ts: Some(int_json(ts)),
        id: Some(JsonView::Text(opts.profile_id@)),
        id2: None,
        args: wrapped("data"@, data),
    }
}

proof fn lemma_id2()
    ensures
        "id2"@ != "pid"@,
        "id2"@ != "tid"@,
        "id2"@ != "ts"@,
        "id2"@ != "ph"@,
        "id2"@ != "cat"@,
        "id2"@ != "name"@,
        "id2"@ != "id"@,
        "id2"@ != "args"@,
{
    reveal_strlit("id2");
    reveal_strlit("pid");
    reveal_strlit("tid");
    reveal_strlit("ts");
    reveal_strlit("ph");
    reveal_strlit("cat");
    reveal_strlit("name");
    reveal_strlit("id");
    reveal_strlit("args");
    assert("id2"@.len() == 3 && "id2"@[0] == 'i');
    assert("pid"@[0] == 'p' && "tid"@[0] == 't' && "cat"@[0] == 'c');
    assert("ts"@.len() == 2 && "ph"@.len() == 2 && "id"@.len() == 2);
    assert("name"@.len() == 4 && "args"@.len() == 4);
}

proof fn lemma_event_parts(opts: ConvertOptions, ts: i64, name: Seq<char>, data: JsonView)
    ensures
        event_data(event_back(opts, ts, name, data)) == Some(data),
        event_time(event_back(opts, ts, name, data)) == ts,
{
    let a = wrapped("data"@, data)->Object_0;
    assert(distinct_keys(a));
    lemma_member_at(a, 0);
}

proof fn lemma_profile_event_back(opts: ConvertOptions, ts: i64, name: Seq<char>, data: JsonView)
    requires
        as_value(wrapped("data"@, data)) == Some(wrapped("data"@, data)),
    ensures
        event_json(profile_event_tree(opts.pid, opts.tid, ts, name, opts.profile_id@, data)) == Some(
            event_back(opts, ts, name, data),
        ),
{
    lemma_event_keys();
    lemma_id2();
    let m = profile_event_tree(opts.pid, opts.tid, ts, name, opts.profile_id@, data)->Object_0;
    assert(distinct_keys(m));
    lemma_member_at(m, 0);
    lemma_member_at(m, 1);
    lemma_member_at(m, 2);
    lemma_member_at(m, 5);
    lemma_member_at(m, 6);
    lemma_member_at(m, 7);
    lemma_no_member(m, "id2"@);
}

proof fn lemma_metadata_back(pid: i64, tid: i64, ts: i64, name: Seq<char>)
    ensures
        event_json(metadata_tree(pid, tid, ts, name)) matches Some(e) && e.name == Some(name),
{
    lemma_event_keys();
    lemma_id2();
    let m = metadata_tree(pid, tid, ts, name)->Object_0;
    assert(distinct_keys(m));
    lemma_member_at(m, 0);
    lemma_member_at(m, 1);
    lemma_member_at(m, 2);
    lemma_member_at(m, 5);
    lemma_member_at(m, 6);
    lemma_no_member(m, "id"@);
    lemma_no_member(m, "id2"@);
    let a = wrapped("name"@, JsonView::Text("pprof"@));
    reveal_with_fuel(is_plain, 2);
    assert(distinct_keys(a->Object_0));
    assert(is_plain(a, 1));
    law_plain_settled(a, 1);
}

/// The node as it stands in the CPU profile.
pub open spec fn cpu_nodes_back(nodes: Seq<TraceNodeView>) -> Seq<CpuNodeView> {
    Seq::new(
        nodes.len(),
        |i: int|
            CpuNodeView {
                id: (i + 1) as i64,
                call_frame: frame_back(nodes[i].frame),
                children: ids(nodes[i].kids),
            },
    )
}

proof fn lemma_nodes_joined_back(nodes: Seq<TraceNodeView>, n: int)
    requires
        0 <= n <= nodes.len(),
        nodes.len() <= i64::MAX,
    ensures
        nodes_joined(Seq::empty(), raws_back(nodes).take(n)) == cpu_nodes_back(nodes).take(n),
    decreases n,
{
    let r = raws_back(nodes);
    let c = cpu_nodes_back(nodes);
    if n == 0 {
        assert(c.take(0) =~= Seq::<CpuNodeView>::empty());
    } else {
        lemma_nodes_joined_back(nodes, n - 1);
        assert(r.take(n).drop_last() =~= r.take(n - 1));
        lemma_node_index(c.take(n - 1), n as i64);
        assert(node_index(c.take(n - 1), n as i64) is None);
        assert(c.take(n) =~= c.take(n - 1).push(c[n - 1]));
    }
}

proof fn lemma_linked_none(acc: Seq<CpuNodeView>, nodes: Seq<RawNodeView>)
    requires
        forall|i: int| 0 <= i < nodes.len() ==> (#[trigger] nodes[i]).parent is None,
    ensures
        linked(acc, nodes) == acc,
    decreases nodes.len(),
{
    if nodes.len() > 0 {
        assert(nodes[nodes.len() - 1].parent is None);
        assert forall|i: int| 0 <= i < nodes.drop_last().len() implies (#[trigger] nodes.drop_last()[i]).parent is None by {
            assert(nodes[i].parent is None);
        }
        lemma_linked_none(acc, nodes.drop_last());
    }
}

/// The CPU profile that is read back.
pub open spec fn profile_back(t: TraceView, start: i64, end: i64) -> CpuProfileView {
    CpuProfileView {
        nodes: cpu_nodes_back(t.nodes),
        samples: ids(t.samples),
        time_deltas: t.deltas,
        start_time: start,
        end_time: end,
    }
}

proof fn lemma_stream_back(t: TraceView, start: i64, end: i64, default: i64)
    requires
        t.nodes.len() <= i64::MAX,
        t.samples.len() == t.deltas.len(),
    ensures
        stream_profile(
            StreamView { start_time: Some(start), end_time: Some(end), chunks: seq![chunk_back(t, start)] },
            default,
        ) == profile_back(t, start, end),
{
    let c = chunk_back(t, start);
    let chunks = seq![c];
    assert(chunks.drop_last() =~= Seq::<ChunkView>::empty());
    assert(by_time(chunks.drop_last()) =~= Seq::<ChunkView>::empty());
    assert(by_time(chunks) =~= chunks);
    assert(all_nodes(chunks.drop_last()) =~= Seq::<RawNodeView>::empty());
    assert(all_samples(chunks.drop_last()) =~= Seq::<i64>::empty());
    assert(all_deltas(chunks.drop_last()) =~= Seq::<i64>::empty());
    assert(all_nodes(chunks) =~= c.nodes);
    assert(all_samples(chunks) =~= c.samples);
    assert(all_deltas(chunks) =~= c.time_deltas);
    lemma_nodes_joined_back(t.nodes, t.nodes.len() as int);
    assert(raws_back(t.nodes).take(t.nodes.len() as int) =~= raws_back(t.nodes));
    assert(cpu_nodes_back(t.nodes).take(t.nodes.len() as int) =~= cpu_nodes_back(t.nodes));
    lemma_linked_none(cpu_nodes_back(t.nodes), c.nodes);
    assert(fitted(t.deltas, ids(t.samples).len(), default) =~= t.deltas);
}

proof fn lemma_event_names()
    ensures
        "process_name"@ != "Profile"@,
        "process_name"@ != "ProfileChunk"@,
        "thread_name"@ != "Profile"@,
        "thread_name"@ != "ProfileChunk"@,
{
    reveal_strlit("process_name");
    reveal_strlit("thread_name");
    reveal_strlit("Profile");
    reveal_strlit("ProfileChunk");
    assert("process_name"@[0] == 'p' && "thread_name"@[0] == 't');
    assert("Profile"@[0] == 'P' && "ProfileChunk"@[0] == 'P');
}

proof fn lemma_events_back(t: TraceView, opts: ConvertOptions, start: i64, end: i64)
    ensures
        ({
            let data = wrapped("startTime"@, int_json(start));
            let e3 = event_back(opts, start, "Profile"@, data);
            let e4 = event_back(opts, start, "ProfileChunk"@, chunk_data_tree(t, start, end));
            trace_json(trace_tree(t, opts, start, end)) matches Some(events) && events.len() == 4
                && !is_profile_event(events[0]) && !is_profile_event(events[1]) && events[2] == e3 && events[3]
                == e4
        }),
{
    let data = wrapped("startTime"@, int_json(start));
    lemma_event_names();
    let j = trace_tree(t, opts, start, end);
    law_trace_is_plain(t, opts, start, end);
    law_plain_settled(j, 64);
    lemma_args_plain(t, opts, start, end);
    law_plain_settled(wrapped("data"@, data), 61);
    law_plain_settled(wrapped("data"@, chunk_data_tree(t, start, end)), 61);
    lemma_metadata_back(opts.pid, opts.tid, start, "process_name"@);
    lemma_metadata_back(opts.pid, opts.tid, start, "thread_name"@);
    lemma_profile_event_back(opts, start, "Profile"@, data);
    lemma_profile_event_back(opts, start, "ProfileChunk"@, chunk_data_tree(t, start, end));
    let m = j->Object_0;
    assert(distinct_keys(m));
    lemma_member_at(m, 0);
    let list = m[0].1->Array_0;
    assert(list.len() == 4);
    assert(event_json(list[0]) is Some);
    assert(event_json(list[1]) is Some);
    assert(event_json(list[2]) is Some);
    assert(event_json(list[3]) is Some);
    assert(events_json(JsonView::Array(list)) is Some);
    assert(record_events(j) is Some);
}

proof fn lemma_streams_back(t: TraceView, opts: ConvertOptions, start: i64, end: i64, events: Seq<EventView>)
    requires
        frames_fit(t.nodes),
        events.len() == 4,
        !is_profile_event(events[0]),
        !is_profile_event(events[1]),
        events[2] == event_back(opts, start, "Profile"@, wrapped("startTime"@, int_json(start))),
        events[3] == event_back(opts, start, "ProfileChunk"@, chunk_data_tree(t, start, end)),
    ensures
        ({
            let key = profile_key(events[2]);
            let s = StreamView {
                start_time: Some(start),
                end_time: Some(end),
                chunks: seq![chunk_back(t, start)],
            };
            streams_of(events) == Some(seq![(key, s)])
        }),
{
    let none = Seq::<(Seq<char>, StreamView)>::empty();
    let p3 = events.drop_last();
    let p2 = p3.drop_last();
    let p1 = p2.drop_last();
    let p0 = p1.drop_last();
    assert(streams_of(p0) == Some(none));
    assert(p1.last() == events[0]);
    assert(streams_of(p1) == Some(none));
    assert(p2.last() == events[1]);
    assert(streams_of(p2) == Some(none));
    // The first event gives the start.
    let e3 = events[2];
    assert(p3.last() == e3);
    let data = wrapped("startTime"@, int_json(start));
    lemma_event_parts(opts, start, "Profile"@, data);
    let dm = data->Object_0;
    assert(distinct_keys(dm));
    lemma_member_at(dm, 0);
    reveal_strlit("startTime");
    reveal_strlit("endTime");
    reveal_strlit("cpuProfile");
    reveal_strlit("nodes");
    assert("startTime"@.len() == 9 && "endTime"@.len() == 7 && "cpuProfile"@.len() == 10 && "nodes"@.len() == 5);
    lemma_no_member(dm, "endTime"@);
    lemma_no_member(dm, "cpuProfile"@);
    lemma_no_member(dm, "nodes"@);
    let s3 = StreamView { start_time: Some(start), end_time: None, chunks: Seq::empty() };
    assert(ingested(empty_stream(), e3) == Some(s3));
    let key = profile_key(e3);
    assert(none.insert(0, (key, s3)) =~= seq![(key, s3)]);
    assert(streams_of(p3) == Some(seq![(key, s3)]));
    // The second one gives the rest.
    let e4 = events[3];
    assert(events.last() == e4);
    lemma_event_parts(opts, start, "ProfileChunk"@, chunk_data_tree(t, start, end));
    lemma_chunk_back(t, start, end);
    let s4 = StreamView { start_time: Some(start), end_time: Some(end), chunks: seq![chunk_back(t, start)] };
    assert(s3.chunks.push(chunk_back(t, start)) =~= s4.chunks);
    assert(ingested(s3, e4) == Some(s4));
    assert(profile_key(e4) == key);
    let m3 = seq![(key, s3)];
    assert(m3[0].0 == key);
    assert(slot(m3, key) == 0);
    assert(m3.update(0, (key, s4)) =~= seq![(key, s4)]);
}

/// Reading the tree of a trace back gives one CPU profile with its call tree, its
/// samples and its times. Left out are frames whose line or column is outside the
/// range of the V8 format, which the reader refuses.
pub proof fn law_trace_read_back(t: TraceView, opts: ConvertOptions, start: i64, end: i64, default: i64)
    requires
        t.nodes.len() <= i64::MAX,
        t.samples.len() == t.deltas.len(),
        is_i64(total(t.deltas)),
        frames_fit(t.nodes),
    ensures
        json_profiles(trace_tree(t, opts, start, end), default) matches Ok(v) && v.len() == 1 && v[0].1
            == profile_back(t, start, end),
{
    let j = trace_tree(t, opts, start, end);
    lemma_events_back(t, opts, start, end);
    let events = trace_json(j).unwrap();
    lemma_streams_back(t, opts, start, end, events);
    lemma_stream_back(t, start, end, default);
    let key = profile_key(events[2]);
    let s = StreamView { start_time: Some(start), end_time: Some(end), chunks: seq![chunk_back(t, start)] };
    let m = seq![(key, s)];
    assert(m.drop_last() =~= Seq::<(Seq<char>, StreamView)>::empty());
    assert(stream_profiles(m.drop_last(), default) == Some(Seq::<(Seq<char>, CpuProfileView)>::empty()));
    assert(m.last() == (key, s));
}

/// How many samples the trace has: each sample with a stack and a value above zero as
/// often as it is repeated.
pub open spec fn repeat_total(samples: Seq<SampleView>, axis: int, counts: Option<int>, expand: bool) -> int
    decreases samples.len(),
{
    if samples.len() == 0 {
        0
    } else {
        repeat_total(samples.drop_last(), axis, counts, expand) + if value_at(samples.last(), axis) > 0
            && samples.last().location_id.len() > 0 {
            repeats(samples.last(), counts, expand)
        } else {
            0
        }
    }
}

/// The time of all samples, each rounded to microseconds.
pub open spec fn us_total(samples: Seq<SampleView>, axis: int, unit: Seq<char>) -> int
    decreases samples.len(),
{
    if samples.len() == 0 {
        0
    } else {
        us_total(samples.drop_last(), axis, unit) + if value_at(samples.last(), axis) > 0
            && samples.last().location_id.len() > 0 {
            to_us(value_at(samples.last(), axis), unit) as int
        } else {
            0
        }
    }
}

proof fn lemma_total_concat(a: Seq<i64>, b: Seq<i64>)
    ensures
        total(a + b) == total(a) + total(b),
    decreases b.len(),
{
    if b.len() == 0 {
        assert(a + b =~= a);
    } else {
        lemma_total_concat(a, b.drop_last());
        assert((a + b).drop_last() =~= a + b.drop_last());
    }
}

/// The trace has as many samples as the profile counts, and their times add up to those
/// of the profile's samples.
pub proof fn law_trace_totals(
    p: ProfileView,
    samples: Seq<SampleView>,
    axis: int,
    unit: Seq<char>,
    counts: Option<int>,
    expand: bool,
)
    ensures
        ({
            let t = samples_added(p, samples, axis, unit, counts, expand);
            &&& t.samples.len() == repeat_total(samples, axis, counts, expand)
            &&& t.deltas.len() == t.samples.len()
            &&& total(t.deltas) == us_total(samples, axis, unit)
        }),
    decreases samples.len(),
{
    if samples.len() > 0 {
        let s = samples.last();
        law_trace_totals(p, samples.drop_last(), axis, unit, counts, expand);
        if value_at(s, axis) > 0 && s.location_id.len() > 0 {
            let before = samples_added(p, samples.drop_last(), axis, unit, counts, expand);
            let n = repeats(s, counts, expand);
            let us = to_us(value_at(s, axis), unit);
            law_parts_sum(us, n);
            lemma_total_concat(before.deltas, parts(us, n));
        }
    }
}

/// Converting a profile to a trace with expanded samples and the trace back to pprof
/// keeps the sample counts and the time: those of the result add up to those of the samples
/// that have a stack and a value above zero, in whole microseconds. The text is what was
/// printed for the trace.
pub proof fn law_counts_and_time_kept<D: Demangler>(
    p: ProfileView,
    axis: int,
    opts: ConvertOptions,
    text: Seq<char>,
    default: i64,
    mapping: Seq<char>,
    d: D,
)
    requires
        0 <= axis < p.sample_type.len(),
        text_json(text) == Some(
            trace_tree(
                traced(p, axis, opts),
                opts,
                start_us(p),
                end_us(p, total(traced(p, axis, opts).deltas)),
            ),
        ),
        traced(p, axis, opts).nodes.len() <= i64::MAX,
        is_i64(total(traced(p, axis, opts).deltas)),
        frames_fit(traced(p, axis, opts).nodes),
    ensures
        ({
            let counts = count_axis(p, opts.count_index);
            let n = repeat_total(p.sample, axis, counts, opts.expand_samples);
            let us = us_total(p.sample, axis, text_at(p.string_table, p.sample_type[axis].unit));
            &&& trace_profiles(text, default) matches Ok(v) && v.len() == 1 && v[0].1.samples.len() == n && total(
                v[0].1.time_deltas,
            ) == us && (values_fit(v[0].1) ==> ({
                let out = cpu_profile(v[0].1, mapping, d);
                &&& sum(Seq::new(out.sample.len(), |i: int| out.sample[i].value[0] as int)) == n
                &&& sum(Seq::new(out.sample.len(), |i: int| out.sample[i].value[1] as int)) == us * 1000
            }))
        }),
{
    let t = traced(p, axis, opts);
    let start = start_us(p);
    let end = end_us(p, total(t.deltas));
    let unit = text_at(p.string_table, p.sample_type[axis].unit);
    law_trace_totals(p, p.sample, axis, unit, count_axis(p, opts.count_index), opts.expand_samples);
    law_trace_read_back(t, opts, start, end, default);
    let v = trace_profiles(text, default)->Ok_0;
    if values_fit(v[0].1) {
        assert(deltas(v[0].1) =~= v[0].1.time_deltas);
        law_cpu_totals(v[0].1, mapping, d);
    }
}

proof fn lemma_array_plain(a: Seq<JsonView>, depth: nat)
    requires
        depth > 0,
        forall|i: int| 0 <= i < a.len() ==> is_plain(#[trigger] a[i], (depth - 1) as nat),
    ensures
        is_plain(JsonView::Array(a), depth),
{
}

/// The arguments of the events of a trace hold integers alone, repeat no key and are not deep.
proof fn lemma_args_plain(t: TraceView, opts: ConvertOptions, start: i64, end: i64)
    ensures
        is_plain(wrapped("data"@, wrapped("startTime"@, int_json(start))), 61),
        is_plain(wrapped("data"@, chunk_data_tree(t, start, end)), 61),
{
    reveal_with_fuel(is_plain, 2);
    lemma_event_keys();
    lemma_node_keys();
    assert forall|i: int| 0 <= i < t.nodes.len() implies is_plain(#[trigger] node_trees(t.nodes)[i], 57) by {
        reveal_with_fuel(is_plain, 2);
        lemma_frame_keys();
        let n = t.nodes[i];
        let f = frame_tree(n.frame);
        assert(distinct_keys(f->Object_0));
        assert(is_plain(f, 56));
        lemma_array_plain(id_trees(n.kids), 56);
        let m = node_members(n, i);
        assert(distinct_keys(m));
    }
    lemma_array_plain(node_trees(t.nodes), 58);
    let c = cpu_profile_tree(t, start, end);
    assert(distinct_keys(c->Object_0));
    assert(is_plain(c, 59));
    lemma_array_plain(id_trees(t.samples), 59);
    lemma_array_plain(int_trees(t.deltas), 59);
    let data = chunk_data_tree(t, start, end);
    assert(distinct_keys(data->Object_0));
    assert(is_plain(data, 60));
    let first = wrapped("startTime"@, int_json(start));
    assert(is_plain(first, 60));
    assert(is_plain(wrapped("data"@, data), 61));
    assert(is_plain(wrapped("data"@, first), 61));
}

/// What is printed for a trace is read back as it was: its tree holds integers alone,
/// repeats no key and is not deep.
pub proof fn law_trace_is_plain(t: TraceView, opts: ConvertOptions, start: i64, end: i64)
    ensures
        is_plain(trace_tree(t, opts, start, end), 64),
{
    reveal_with_fuel(is_plain, 2);
    lemma_event_keys();
    lemma_args_plain(t, opts, start, end);
    let list = trace_tree(t, opts, start, end)->Object_0[0].1->Array_0;
    assert(is_plain(wrapped("name"@, JsonView::Text("pprof"@)), 61));
    assert(distinct_keys(list[0]->Object_0));
    assert(distinct_keys(list[1]->Object_0));
    assert(distinct_keys(list[2]->Object_0));
    assert(distinct_keys(list[3]->Object_0));
    assert(is_plain(list[0], 62));
    assert(is_plain(list[1], 62));
    assert(is_plain(list[2], 62));
    assert(is_plain(list[3], 62));
    lemma_array_plain(list, 63);
}

} // verus!

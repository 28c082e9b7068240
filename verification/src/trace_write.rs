//! Chrome trace-event JSON with one V8 CPU profile.
use vstd::prelude::*;
use crate::json::{
    array_value, distinct_object, int_json, int_value, law_plain_printable, law_plain_read_back,
    member_trees, pretty_json, print_pretty, text_value, tree, trees, JsonView,
};
use crate::json_text::text_json;
use crate::num::{clamp, clamped, is_i64};
use crate::proto::{string_at, text_at, Profile, ProfileView};
use crate::tally::total;
use crate::to_chrome_trace::{
    count_axis, expandable, find_count_axis, grow_tree, samples_added, select_value_axis, time_axis,
    trace_node_views, tree_ok, CallTree, ConvertOptions, Stats, TraceError, TraceFrame,
    TraceFrameView, TraceNode, TraceNodeView, TraceView,
};
use crate::trace_round_trip::law_trace_is_plain;

verus! {

/// A converted profile.
#[derive(Debug)]
pub struct EncodedTrace {
    /// Chrome trace-event JSON.
    pub json: String,
    pub stats: Stats,
}

/// A call frame.
pub open spec fn frame_tree(f: TraceFrameView) -> JsonView {
    JsonView::Object(
        seq![
            ("columnNumber"@, int_json(f.column_number)),
            ("functionName"@, JsonView::Text(f.function_name)),
            ("lineNumber"@, int_json(f.line_number)),
            ("scriptId"@, JsonView::Text("0"@)),
            ("url"@, JsonView::Text(f.url)),
        ],
    )
}

/// Node ids, which are one-based positions.
pub open spec fn id_trees(s: Seq<usize>) -> Seq<JsonView> {
    Seq::new(s.len(), |i: int| int_json((s[i] + 1) as i64))
}

/// Integers.
pub open spec fn int_trees(s: Seq<i64>) -> Seq<JsonView> {
    Seq::new(s.len(), |i: int| int_json(s[i]))
}

/// The members of a node. Children are left out where there are none.
pub open spec fn node_members(n: TraceNodeView, i: int) -> Seq<(Seq<char>, JsonView)> {
    if n.kids.len() == 0 {
        seq![("callFrame"@, frame_tree(n.frame)), ("id"@, int_json((i + 1) as i64))]
    } else {
        seq![
            ("callFrame"@, frame_tree(n.frame)),
            ("children"@, JsonView::Array(id_trees(n.kids))),
            ("id"@, int_json((i + 1) as i64)),
        ]
    }
}

pub open spec fn node_trees(nodes: Seq<TraceNodeView>) -> Seq<JsonView> {
    Seq::new(nodes.len(), |i: int| JsonView::Object(node_members(nodes[i], i)))
}

/// The profile inside the data of a `ProfileChunk` event.
pub open spec fn cpu_profile_tree(t: TraceView, start_us: i64, end_us: i64) -> JsonView {
    JsonView::Object(
        seq![
            ("endTime"@, int_json(end_us)),
            ("nodes"@, JsonView::Array(node_trees(t.nodes))),
            ("startTime"@, int_json(start_us)),
        ],
    )
}

/// The data of a `ProfileChunk` event.
pub open spec fn chunk_data_tree(t: TraceView, start_us: i64, end_us: i64) -> JsonView {
    JsonView::Object(
        seq![
            ("cpuProfile"@, cpu_profile_tree(t, start_us, end_us)),
            ("samples"@, JsonView::Array(id_trees(t.samples))),
            ("timeDeltas"@, JsonView::Array(int_trees(t.deltas))),
        ],
    )
}

/// An object with one member.
pub open spec fn wrapped(key: Seq<char>, j: JsonView) -> JsonView {
    JsonView::Object(seq![(key, j)])
}

/// An event that names the process or the thread.
pub open spec fn metadata_tree(pid: i64, tid: i64, ts: i64, name: Seq<char>) -> JsonView {
    JsonView::Object(
        seq![
            ("pid"@, int_json(pid)),
            ("tid"@, int_json(tid)),
            ("ts"@, int_json(ts)),
            ("ph"@, JsonView::Text("M"@)),
            ("cat"@, JsonView::Text("__metadata"@)),
            ("name"@, JsonView::Text(name)),
            ("args"@, wrapped("name"@, JsonView::Text("pprof"@))),
        ],
    )
}

/// An event that carries a piece of a CPU profile.
pub open spec fn profile_event_tree(
    pid: i64,
    tid: i64,
    ts: i64,
    name: Seq<char>,
    id: Seq<char>,
    data: JsonView,
) -> JsonView {
    JsonView::Object(
        seq![
            ("pid"@, int_json(pid)),
            ("tid"@, int_json(tid)),
            ("ts"@, int_json(ts)),
            ("ph"@, JsonView::Text("P"@)),
            ("cat"@, JsonView::Text("disabled-by-default-v8.cpu_profiler"@)),
            ("name"@, JsonView::Text(name)),
            ("id"@, JsonView::Text(id)),
            ("args"@, wrapped("data"@, data)),
        ],
    )
}

/// A trace with one CPU profile.
pub open spec fn trace_tree(t: TraceView, opts: ConvertOptions, start_us: i64, end_us: i64) -> JsonView {
    wrapped(
        "traceEvents"@,
        JsonView::Array(
            seq![
                metadata_tree(opts.pid, opts.tid, start_us, "process_name"@),
                metadata_tree(opts.pid, opts.tid, start_us, "thread_name"@),
                profile_event_tree(
                    opts.pid,
                    opts.tid,
                    start_us,
                    "Profile"@,
                    opts.profile_id@,
                    wrapped("startTime"@, int_json(start_us)),
                ),
                profile_event_tree(
                    opts.pid,
                    opts.tid,
                    start_us,
                    "ProfileChunk"@,
                    opts.profile_id@,
                    chunk_data_tree(t, start_us, end_us),
                ),
            ],
        ),
    )
}

/// The start of a profile in microseconds, 0 where it has none.
pub open spec fn start_us(p: ProfileView) -> i64 {
    if p.time_nanos > 0 {
        (p.time_nanos / 1000) as i64
    } else {
        0
    }
}

/// The end of a profile in microseconds: by its duration where it has one, else by its
/// samples.
pub open spec fn end_us(p: ProfileView, total_us: int) -> i64 {
    if p.duration_nanos > 0 {
        clamped(start_us(p) + p.duration_nanos / 1000)
    } else {
        clamped(start_us(p) + total_us)
    }
}

/// The call tree and the samples that a profile is converted to.
pub open spec fn traced(p: ProfileView, axis: int, opts: ConvertOptions) -> TraceView {
    samples_added(
        p,
        p.sample,
        axis,
        text_at(p.string_table, p.sample_type[axis].unit),
        count_axis(p, opts.count_index),
        opts.expand_samples,
    )
}

pub proof fn lemma_event_keys()
    ensures
        "pid"@ != "tid"@,
        "pid"@ != "ts"@,
        "pid"@ != "ph"@,
        "pid"@ != "cat"@,
        "pid"@ != "name"@,
        "pid"@ != "id"@,
        "pid"@ != "args"@,
        "tid"@ != "ts"@,
        "tid"@ != "ph"@,
        "tid"@ != "cat"@,
        "tid"@ != "name"@,
        "tid"@ != "id"@,
        "tid"@ != "args"@,
        "ts"@ != "ph"@,
        "ts"@ != "cat"@,
        "ts"@ != "name"@,
        "ts"@ != "id"@,
        "ts"@ != "args"@,
        "ph"@ != "cat"@,
        "ph"@ != "name"@,
        "ph"@ != "id"@,
        "ph"@ != "args"@,
        "cat"@ != "name"@,
        "cat"@ != "id"@,
        "cat"@ != "args"@,
        "name"@ != "id"@,
        "name"@ != "args"@,
        "id"@ != "args"@,
{
    reveal_strlit("pid");
    reveal_strlit("tid");
    reveal_strlit("ts");
    reveal_strlit("ph");
    reveal_strlit("cat");
    reveal_strlit("name");
    reveal_strlit("id");
    reveal_strlit("args");
    assert("pid"@.len() == 3 && "pid"@[0] == 'p');
    assert("tid"@.len() == 3 && "tid"@[0] == 't');
    assert("ts"@.len() == 2 && "ts"@[0] == 't');
    assert("ph"@.len() == 2 && "ph"@[0] == 'p');
    assert("cat"@.len() == 3 && "cat"@[0] == 'c');
    assert("name"@.len() == 4 && "name"@[0] == 'n');
    assert("id"@.len() == 2 && "id"@[0] == 'i');
    assert("args"@.len() == 4 && "args"@[0] == 'a');
}

pub proof fn lemma_frame_keys()
    ensures
        "columnNumber"@ != "functionName"@,
        "columnNumber"@ != "lineNumber"@,
        "columnNumber"@ != "scriptId"@,
        "columnNumber"@ != "url"@,
        "functionName"@ != "lineNumber"@,
        "functionName"@ != "scriptId"@,
        "functionName"@ != "url"@,
        "lineNumber"@ != "scriptId"@,
        "lineNumber"@ != "url"@,
        "scriptId"@ != "url"@,
{
    reveal_strlit("columnNumber");
    reveal_strlit("functionName");
    reveal_strlit("lineNumber");
    reveal_strlit("scriptId");
    reveal_strlit("url");
    assert("columnNumber"@.len() == 12 && "columnNumber"@[0] == 'c');
    assert("functionName"@.len() == 12 && "functionName"@[0] == 'f');
    assert("lineNumber"@.len() == 10 && "lineNumber"@[0] == 'l');
    assert("scriptId"@.len() == 8 && "scriptId"@[0] == 's');
    assert("url"@.len() == 3 && "url"@[0] == 'u');
}

pub proof fn lemma_node_keys()
    ensures
        "callFrame"@ != "children"@,
        "callFrame"@ != "id"@,
        "children"@ != "id"@,
        "endTime"@ != "nodes"@,
        "endTime"@ != "startTime"@,
        "nodes"@ != "startTime"@,
        "cpuProfile"@ != "samples"@,
        "cpuProfile"@ != "timeDeltas"@,
        "samples"@ != "timeDeltas"@,
{
    reveal_strlit("callFrame");
    reveal_strlit("children");
    reveal_strlit("id");
    reveal_strlit("endTime");
    reveal_strlit("nodes");
    reveal_strlit("startTime");
    reveal_strlit("cpuProfile");
    reveal_strlit("samples");
    reveal_strlit("timeDeltas");
    assert("callFrame"@.len() == 9 && "callFrame"@[0] == 'c');
    assert("children"@.len() == 8 && "children"@[0] == 'c');
    assert("id"@.len() == 2 && "id"@[0] == 'i');
    assert("endTime"@.len() == 7 && "endTime"@[0] == 'e');
    assert("nodes"@.len() == 5 && "nodes"@[0] == 'n');
    assert("startTime"@.len() == 9 && "startTime"@[0] == 's');
    assert("cpuProfile"@.len() == 10 && "cpuProfile"@[0] == 'c');
    assert("samples"@.len() == 7 && "samples"@[0] == 's');
    assert("timeDeltas"@.len() == 10 && "timeDeltas"@[0] == 't');
}

fn frame_to_value(f: &TraceFrame) -> (v: serde_json::Value)
    ensures
        tree(v) == frame_tree(f@),
{
    let mut m: Vec<(String, serde_json::Value)> = Vec::new();
    m.push(("columnNumber".to_owned(), int_value(f.column_number)));
    m.push(("functionName".to_owned(), text_value(f.function_name.clone())));
    m.push(("lineNumber".to_owned(), int_value(f.line_number)));
    m.push(("scriptId".to_owned(), text_value("0".to_owned())));
    m.push(("url".to_owned(), text_value(f.url.clone())));
    proof {
        lemma_frame_keys();
        assert(JsonView::Object(member_trees(m@)) == frame_tree(f@)) by {
            assert(member_trees(m@) =~= frame_tree(f@)->Object_0);
        }
    }
    distinct_object(m)
}

fn ids_to_value(s: &Vec<usize>, bound: usize) -> (v: serde_json::Value)
    requires
        forall|i: int| 0 <= i < s@.len() ==> #[trigger] s@[i] < bound,
    ensures
        tree(v) == JsonView::Array(id_trees(s@)),
{
    let mut a: Vec<serde_json::Value> = Vec::new();
    for i in 0..s.len()
        invariant
            forall|i: int| 0 <= i < s@.len() ==> #[trigger] s@[i] < bound,
            a@.len() == i,
            forall|k: int| 0 <= k < i ==> tree(#[trigger] a@[k]) == id_trees(s@)[k],
    {
        assert(s@[i as int] < bound);
        let id: i64 = (s[i] + 1) as i64;
        a.push(int_value(id));
    }
    assert(trees(a@) =~= id_trees(s@));
    array_value(a)
}

fn ints_to_value(s: &Vec<i64>) -> (v: serde_json::Value)
    ensures
        tree(v) == JsonView::Array(int_trees(s@)),
{
    let mut a: Vec<serde_json::Value> = Vec::new();
    for i in 0..s.len()
        invariant
            a@.len() == i,
            forall|k: int| 0 <= k < i ==> tree(#[trigger] a@[k]) == int_trees(s@)[k],
    {
        a.push(int_value(s[i]));
    }
    assert(trees(a@) =~= int_trees(s@));
    array_value(a)
}

fn node_to_value(n: &TraceNode, i: usize, bound: usize) -> (v: serde_json::Value)
    requires
        i < bound,
        forall|k: int| 0 <= k < n.kids@.len() ==> #[trigger] n.kids@[k] < bound,
    ensures
        tree(v) == JsonView::Object(node_members(n@, i as int)),
{
    let mut m: Vec<(String, serde_json::Value)> = Vec::new();
    m.push(("callFrame".to_owned(), frame_to_value(&n.frame)));
    if n.kids.len() > 0 {
        m.push(("children".to_owned(), ids_to_value(&n.kids, bound)));
    }
    m.push(("id".to_owned(), int_value((i + 1) as i64)));
    proof {
        lemma_node_keys();
        assert(member_trees(m@) =~= node_members(n@, i as int));
    }
    distinct_object(m)
}

fn nodes_to_value(nodes: &Vec<TraceNode>) -> (v: serde_json::Value)
    requires
        tree_ok(trace_node_views(nodes@)),
    ensures
        tree(v) == JsonView::Array(node_trees(trace_node_views(nodes@))),
{
    let ghost w = trace_node_views(nodes@);
    let n: usize = nodes.len();
    let mut a: Vec<serde_json::Value> = Vec::new();
    for i in 0..n
        invariant
            n == nodes@.len(),
            w == trace_node_views(nodes@),
            tree_ok(w),
            a@.len() == i,
            forall|k: int| 0 <= k < i ==> tree(#[trigger] a@[k]) == node_trees(w)[k],
    {
        assert forall|k: int| 0 <= k < nodes@[i as int].kids@.len() implies #[trigger] nodes@[i as int].kids@[k] < n by {
            assert(w[i as int].kids[k] < w.len());
        }
        a.push(node_to_value(&nodes[i], i, n));
    }
    assert(trees(a@) =~= node_trees(w));
    array_value(a)
}

/// An object with one member.
fn wrap(key: &str, v: serde_json::Value) -> (r: serde_json::Value)
    ensures
        tree(r) == wrapped(key@, tree(v)),
{
    let mut m: Vec<(String, serde_json::Value)> = Vec::new();
    m.push((key.to_owned(), v));
    assert(member_trees(m@) =~= seq![(key@, tree(v))]);
    distinct_object(m)
}

fn chunk_data(t: &CallTree, start: i64, end: i64) -> (v: serde_json::Value)
    requires
        tree_ok(t@.nodes),
        forall|i: int| 0 <= i < t.samples@.len() ==> #[trigger] t.samples@[i] < t.nodes@.len(),
    ensures
        tree(v) == chunk_data_tree(t@, start, end),
{
    proof {
        lemma_node_keys();
    }
    let mut p: Vec<(String, serde_json::Value)> = Vec::new();
    p.push(("endTime".to_owned(), int_value(end)));
    p.push(("nodes".to_owned(), nodes_to_value(&t.nodes)));
    p.push(("startTime".to_owned(), int_value(start)));
    assert(member_trees(p@) =~= cpu_profile_tree(t@, start, end)->Object_0);
    let mut m: Vec<(String, serde_json::Value)> = Vec::new();
    m.push(("cpuProfile".to_owned(), distinct_object(p)));
    m.push(("samples".to_owned(), ids_to_value(&t.samples, t.nodes.len())));
    m.push(("timeDeltas".to_owned(), ints_to_value(&t.deltas)));
    assert(member_trees(m@) =~= chunk_data_tree(t@, start, end)->Object_0);
    distinct_object(m)
}

fn metadata_event(pid: i64, tid: i64, ts: i64, name: &str) -> (v: serde_json::Value)
    ensures
        tree(v) == metadata_tree(pid, tid, ts, name@),
{
    let mut m: Vec<(String, serde_json::Value)> = Vec::new();
    m.push(("pid".to_owned(), int_value(pid)));
    m.push(("tid".to_owned(), int_value(tid)));
    m.push(("ts".to_owned(), int_value(ts)));
    m.push(("ph".to_owned(), text_value("M".to_owned())));
    m.push(("cat".to_owned(), text_value("__metadata".to_owned())));
    m.push(("name".to_owned(), text_value(name.to_owned())));
    m.push(("args".to_owned(), wrap("name", text_value("pprof".to_owned()))));
    proof {
        lemma_event_keys();
        assert(member_trees(m@) =~= metadata_tree(pid, tid, ts, name@)->Object_0);
    }
    distinct_object(m)
}

fn profile_event(
    opts: &ConvertOptions,
    ts: i64,
    name: &str,
    data: serde_json::Value,
) -> (v: serde_json::Value)
    ensures
        tree(v) == profile_event_tree(opts.pid, opts.tid, ts, name@, opts.profile_id@, tree(data)),
{
    let ghost want = profile_event_tree(opts.pid, opts.tid, ts, name@, opts.profile_id@, tree(data));
    let mut m: Vec<(String, serde_json::Value)> = Vec::new();
    m.push(("pid".to_owned(), int_value(opts.pid)));
    m.push(("tid".to_owned(), int_value(opts.tid)));
    m.push(("ts".to_owned(), int_value(ts)));
    m.push(("ph".to_owned(), text_value("P".to_owned())));
    m.push(("cat".to_owned(), text_value("disabled-by-default-v8.cpu_profiler".to_owned())));
    m.push(("name".to_owned(), text_value(name.to_owned())));
    m.push(("id".to_owned(), text_value(opts.profile_id.clone())));
    m.push(("args".to_owned(), wrap("data", data)));
    proof {
        lemma_event_keys();
        assert(member_trees(m@) =~= want->Object_0);
    }
    distinct_object(m)
}

fn trace_to_value(t: &CallTree, opts: &ConvertOptions, start: i64, end: i64) -> (v: serde_json::Value)
    requires
        tree_ok(t@.nodes),
        forall|i: int| 0 <= i < t.samples@.len() ==> #[trigger] t.samples@[i] < t.nodes@.len(),
    ensures
        tree(v) == trace_tree(t@, *opts, start, end),
{
    let mut events: Vec<serde_json::Value> = Vec::new();
    events.push(metadata_event(opts.pid, opts.tid, start, "process_name"));
    events.push(metadata_event(opts.pid, opts.tid, start, "thread_name"));
    events.push(profile_event(opts, start, "Profile", wrap("startTime", int_value(start))));
    events.push(profile_event(opts, start, "ProfileChunk", chunk_data(t, start, end)));
    let ghost list = trace_tree(t@, *opts, start, end)->Object_0[0].1->Array_0;
    assert(trees(events@) =~= list);
    wrap("traceEvents", array_value(events))
}

fn sum_deltas(w: &Vec<i64>) -> (r: Option<i64>)
    requires
        forall|i: int| 0 <= i < w@.len() ==> #[trigger] w@[i] >= 0,
    ensures
        match r {
            Some(s) => total(w@) == s,
            None => !is_i64(total(w@)),
        },
{
    let mut s: i64 = 0;
    for i in 0..w.len()
        invariant
            forall|i: int| 0 <= i < w@.len() ==> #[trigger] w@[i] >= 0,
            s == total(w@.take(i as int)),
            s >= 0,
    {
        assert(w@.take(i + 1).drop_last() =~= w@.take(i as int));
        assert(w@[i as int] >= 0);
        if s > i64::MAX - w[i] {
            proof {
                lemma_total_grows(w@, i + 1);
            }
            return None;
        }
        s = s + w[i];
    }
    assert(w@.take(w@.len() as int) =~= w@);
    Some(s)
}

proof fn lemma_total_grows(w: Seq<i64>, n: int)
    requires
        0 <= n <= w.len(),
        forall|i: int| 0 <= i < w.len() ==> #[trigger] w[i] >= 0,
    ensures
        total(w.take(n)) <= total(w),
    decreases w.len() - n,
{
    if n < w.len() {
        lemma_total_grows(w, n + 1);
        assert(w.take(n + 1).drop_last() =~= w.take(n));
    } else {
        assert(w.take(n) =~= w);
    }
}

/// Converts a profile into Chrome trace-event JSON.
pub fn convert_profile(profile: &Profile, opts: &ConvertOptions) -> (r: Result<EncodedTrace, TraceError>)
    ensures
        match time_axis(profile@, opts.value_index) {
            Err(e) => r == Err::<EncodedTrace, TraceError>(e),
            Ok(axis) => {
                let p = profile@;
                let fine = expandable(
                    p.sample,
                    axis,
                    count_axis(p, opts.count_index),
                    opts.expand_samples,
                );
                let t = traced(p, axis, *opts);
                let sum = total(t.deltas);
                let json = trace_tree(t, *opts, start_us(p), end_us(p, sum));
                match r {
                    Ok(e) => {
                        &&& fine && t.samples.len() > 0 && is_i64(sum)
                        &&& pretty_json(json) == Some(e.json@)
                        &&& text_json(e.json@) == Some(json)
                        &&& e.stats.nodes == t.nodes.len()
                        &&& e.stats.samples == t.samples.len()
                        &&& e.stats.total_delta_us == sum
                    },
                    Err(e) => if !fine {
                        e == TraceError::TooManySamples
                    } else if t.samples.len() == 0 {
                        e == TraceError::NoSamples
                    } else if !is_i64(sum) {
                        e == TraceError::Overflow
                    } else {
                        e == TraceError::Json && pretty_json(json) is None
                    },
                }
            },
        },
{
    let axis: usize = match select_value_axis(profile, opts.value_index) {
        Ok(i) => i,
        Err(e) => {
            return Err(e);
        },
    };
    let counts: Option<usize> = match opts.count_index {
        Some(i) => Some(i),
        None => find_count_axis(profile),
    };
    let unit = string_at(profile, profile.sample_type[axis].unit);
    let t = match grow_tree(profile, axis, unit, counts, opts.expand_samples) {
        Some(t) => t,
        None => {
            return Err(TraceError::TooManySamples);
        },
    };
    if t.samples.len() == 0 {
        return Err(TraceError::NoSamples);
    }
    let total_us: i64 = match sum_deltas(&t.deltas) {
        Some(s) => s,
        None => {
            return Err(TraceError::Overflow);
        },
    };
    let start: i64 = if profile.time_nanos > 0 {
        profile.time_nanos / 1000
    } else {
        0
    };
    let end: i64 = if profile.duration_nanos > 0 {
        clamp(start as i128 + (profile.duration_nanos / 1000) as i128)
    } else {
        clamp(start as i128 + total_us as i128)
    };
    let stats = Stats {
        nodes: t.nodes.len(),
        samples: t.samples.len(),
        total_delta_us: total_us,
    };
    let value = trace_to_value(&t, opts, start, end);
    proof {
        law_trace_is_plain(t@, *opts, start, end);
        law_plain_printable(tree(value), 64);
    }
    match print_pretty(&value) {
        Ok(json) => {
            proof {
                law_plain_read_back(text_json(json@).unwrap(), tree(value), 64);
            }
            Ok(EncodedTrace { json, stats })
        },
        Err(_) => Err(TraceError::Json),
    }
}

} // verus!

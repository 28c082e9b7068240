//! Events of the Chrome trace format, and the pieces of V8 CPU profiles that they
//! carry.
use vstd::prelude::*;
use vstd::string::StringExecFns;
use crate::float::{nearest_i64, round_nearest};
use crate::json::{
    compact_json, get, print_compact, tree, value_bits, JsonView,
};
use crate::json_read::{
    field, ints_or_none, is_record, last_member, opt_held, opt_int, opt_text, opt_tree, opt_value,
    read_field, read_ints_or_none, read_opt_int, read_opt_text, read_opt_value, record,
};
use crate::json_text::{as_value, json_values, member_values, Json};
use crate::v8::{CallFrame, CallFrameView};
use crate::v8_json::{frame_field, int_field, read_frame_field, read_int_field};

verus! {

/// An event.
pub struct EventView {
    pub name: Option<Seq<char>>,
    pub pid: Option<JsonView>,
    pub tid: Option<JsonView>,
    pub ts: Option<JsonView>,
    pub id: Option<JsonView>,
    pub id2: Option<JsonView>,
    pub args: JsonView,
}

/// An event. All its fields but the arguments must be there where it is written as an
/// array.
pub open spec fn event_json(j: JsonView) -> Option<EventView> {
    let name = opt_text(field(j, "name"@, 0));
    let pid = opt_value(field(j, "pid"@, 1));
    let tid = opt_value(field(j, "tid"@, 2));
    let ts = opt_value(field(j, "ts"@, 3));
    let id = opt_value(field(j, "id"@, 4));
    let id2 = opt_value(field(j, "id2"@, 5));
    let args = match field(j, "args"@, 6) {
        Some(a) => as_value(a),
        None => Some(JsonView::Null),
    };
    let long_enough = match j {
        JsonView::Array(a) => a.len() >= 6,
        _ => true,
    };
    if is_record(j, 7) && long_enough && name is Some && pid is Some && tid is Some && ts is Some && id is Some
        && id2 is Some && args is Some {
        Some(
            EventView {
                name: name.unwrap(),
                pid: pid.unwrap(),
                tid: tid.unwrap(),
                ts: ts.unwrap(),
                id: id.unwrap(),
                id2: id2.unwrap(),
                args: args.unwrap(),
            },
        )
    } else {
        None
    }
}

/// A list of events.
pub open spec fn events_json(j: JsonView) -> Option<Seq<EventView>> {
    match j {
        JsonView::Array(a) => if forall|i: int| 0 <= i < a.len() ==> event_json(#[trigger] a[i]) is Some {
            Some(Seq::new(a.len(), |i: int| event_json(a[i]).unwrap()))
        } else {
            None
        },
        _ => None,
    }
}

/// The events of a trace record.
pub open spec fn record_events(j: JsonView) -> Option<Seq<EventView>> {
    if is_record(j, 1) {
        match field(j, "traceEvents"@, 0) {
            Some(list) => events_json(list),
            None => Some(Seq::empty()),
        }
    } else {
        None
    }
}

/// The events of a trace: of a record, or else of a bare list. All of it is read.
pub open spec fn trace_json(j: JsonView) -> Option<Seq<EventView>> {
    if as_value(j) is None {
        None
    } else {
        match record_events(j) {
            Some(events) => Some(events),
            None => events_json(j),
        }
    }
}

/// A value as text: a string without its quotes.
pub open spec fn key_text(v: Option<JsonView>) -> Seq<char> {
    match v {
        Some(JsonView::Text(s)) => s,
        Some(j) => compact_json(j),
        None => "?"@,
    }
}

/// What tells profile streams apart: process, thread and profile id.
pub open spec fn profile_key(e: EventView) -> Seq<char> {
    let id = match e.id {
        Some(j) => key_text(Some(j)),
        None => match e.id2 {
            Some(j) => key_text(Some(j)),
            None => "none"@,
        },
    };
    "pid="@ + key_text(e.pid) + "/tid="@ + key_text(e.tid) + "/id="@ + id
}

/// A number as an integer. One that is not an integer is rounded.
pub open spec fn to_int(j: JsonView) -> Option<i64> {
    match j {
        JsonView::Number { signed: Some(n), .. } => Some(n),
        JsonView::Number { unsigned: Some(_), .. } => None,
        JsonView::Number { bits, .. } => Some(nearest_i64(bits)),
        _ => None,
    }
}

/// A member as an integer.
pub open spec fn int_member(j: JsonView, key: Seq<char>) -> Option<i64> {
    match get(j, key) {
        Some(v) => to_int(v),
        None => None,
    }
}

/// The time of an event, 0 where it has none.
pub open spec fn event_time(e: EventView) -> i64 {
    match e.ts {
        Some(j) => match to_int(j) {
            Some(n) => n,
            None => 0,
        },
        None => 0,
    }
}

/// The object that the arguments wrap, or the arguments themselves.
pub open spec fn event_data(e: EventView) -> Option<JsonView> {
    match e.args {
        JsonView::Object(_) => match get(e.args, "data"@) {
            Some(d) => Some(d),
            None => Some(e.args),
        },
        _ => None,
    }
}

/// A node of a CPU profile, which may name its parent.
#[verifier::ext_equal]
pub struct RawNodeView {
    pub id: i64,
    pub call_frame: CallFrameView,
    pub children: Seq<i64>,
    pub parent: Option<i64>,
}

pub open spec fn raw_node_json(j: JsonView) -> Option<RawNodeView> {
    let id = int_field(field(j, "id"@, 0));
    let frame = frame_field(field(j, "callFrame"@, 1));
    let children = ints_or_none(field(j, "children"@, 2));
    let parent = opt_int(field(j, "parent"@, 3));
    if is_record(j, 4) && id is Some && frame is Some && children is Some && parent is Some {
        Some(
            RawNodeView {
                id: id.unwrap(),
                call_frame: frame.unwrap(),
                children: children.unwrap(),
                parent: parent.unwrap(),
            },
        )
    } else {
        None
    }
}

pub open spec fn raw_nodes_json(f: Option<JsonView>) -> Option<Seq<RawNodeView>> {
    match f {
        None => Some(Seq::empty()),
        Some(JsonView::Array(a)) => if forall|i: int| 0 <= i < a.len() ==> raw_node_json(#[trigger] a[i]) is Some {
            Some(Seq::new(a.len(), |i: int| raw_node_json(a[i]).unwrap()))
        } else {
            None
        },
        _ => None,
    }
}

/// A piece of a CPU profile.
#[verifier::ext_equal]
pub struct ChunkView {
    pub ts: i64,
    pub nodes: Seq<RawNodeView>,
    pub samples: Seq<i64>,
    pub time_deltas: Seq<i64>,
}

/// The profile in the data of an event: a member, or the data itself where it has nodes.
pub open spec fn embedded(data: JsonView) -> Option<JsonView> {
    match get(data, "cpuProfile"@) {
        Some(p) => Some(p),
        None => if get(data, "nodes"@) is Some {
            Some(data)
        } else {
            None
        },
    }
}

/// The first list, unless it is empty.
pub open spec fn or_else_list(a: Seq<i64>, b: Seq<i64>) -> Seq<i64> {
    if a.len() == 0 {
        b
    } else {
        a
    }
}

/// The piece in the data of an event: samples and times beside the profile go before
/// those inside it.
pub open spec fn chunk_json(data: JsonView, profile: JsonView, ts: i64) -> Option<ChunkView> {
    let nodes = raw_nodes_json(field(profile, "nodes"@, 0));
    let samples = ints_or_none(field(profile, "samples"@, 1));
    let deltas = ints_or_none(field(profile, "timeDeltas"@, 2));
    let outer_samples = ints_or_none(get(data, "samples"@));
    let outer_deltas = ints_or_none(get(data, "timeDeltas"@));
    if is_record(profile, 3) && nodes is Some && samples is Some && deltas is Some && outer_samples is Some
        && outer_deltas is Some {
        Some(
            ChunkView {
                ts,
                nodes: nodes.unwrap(),
                samples: or_else_list(outer_samples.unwrap(), samples.unwrap()),
                time_deltas: or_else_list(outer_deltas.unwrap(), deltas.unwrap()),
            },
        )
    } else {
        None
    }
}

/// The pieces of one profile that have come so far.
#[verifier::ext_equal]
pub struct StreamView {
    pub start_time: Option<i64>,
    pub end_time: Option<i64>,
    pub chunks: Seq<ChunkView>,
}

pub open spec fn empty_stream() -> StreamView {
    StreamView { start_time: None, end_time: None, chunks: Seq::empty() }
}

/// The first of two that is there.
pub open spec fn or_else_int(a: Option<i64>, b: Option<i64>) -> Option<i64> {
    match a {
        Some(_) => a,
        None => b,
    }
}

/// A stream with an event taken in. `None` where the event's profile is malformed.
pub open spec fn ingested(s: StreamView, e: EventView) -> Option<StreamView> {
    match event_data(e) {
        None => Some(s),
        Some(data) => {
            let start = or_else_int(s.start_time, int_member(data, "startTime"@));
            let end = or_else_int(s.end_time, int_member(data, "endTime"@));
            match embedded(data) {
                None => Some(StreamView { start_time: start, end_time: end, chunks: s.chunks }),
                Some(profile) => match chunk_json(data, profile, event_time(e)) {
                    Some(c) => Some(
                        StreamView {
                            start_time: or_else_int(start, int_member(profile, "startTime"@)),
                            end_time: or_else_int(end, int_member(profile, "endTime"@)),
                            chunks: s.chunks.push(c),
                        },
                    ),
                    None => None,
                },
            }
        },
    }
}

/// An event, as far as it is read.
pub(crate) struct TraceEvent {
    pub(crate) name: Option<String>,
    pub(crate) pid: Option<serde_json::Value>,
    pub(crate) tid: Option<serde_json::Value>,
    pub(crate) ts: Option<serde_json::Value>,
    pub(crate) id: Option<serde_json::Value>,
    pub(crate) id2: Option<serde_json::Value>,
    pub(crate) args: Option<Json>,
}

impl TraceEvent {
    pub(crate) open spec fn value(self) -> EventView {
        EventView {
            name: match self.name {
                Some(s) => Some(s@),
                None => None,
            },
            pid: opt_held(self.pid),
            tid: opt_held(self.tid),
            ts: opt_held(self.ts),
            id: opt_held(self.id),
            id2: opt_held(self.id2),
            args: match self.args {
                Some(a) => a.value(),
                None => JsonView::Null,
            },
        }
    }

    /// The key of the event's profile stream.
    pub(crate) fn profile_key(&self) -> (r: String)
        ensures
            r@ == profile_key(self.value()),
    {
        let mut r = "pid=".to_owned();
        r.append(value_key(&self.pid).as_str());
        r.append("/tid=");
        r.append(value_key(&self.tid).as_str());
        r.append("/id=");
        match &self.id {
            Some(_) => {
                r.append(value_key(&self.id).as_str());
            },
            None => match &self.id2 {
                Some(_) => {
                    r.append(value_key(&self.id2).as_str());
                },
                None => {
                    r.append("none");
                },
            },
        }
        r
    }

    fn ts(&self) -> (r: i64)
        ensures
            r == event_time(self.value()),
    {
        match &self.ts {
            Some(v) => match held_to_i64(v) {
                Some(n) => n,
                None => 0,
            },
            None => 0,
        }
    }

    fn data(&self) -> (r: Option<&Json>)
        ensures
            opt_tree(r) == event_data(self.value()),
    {
        let args = match &self.args {
            Some(a) => a,
            None => {
                return None;
            },
        };
        if args.as_object().is_none() {
            return None;
        }
        match get_member(args, "data") {
            Some(d) => Some(d),
            None => Some(args),
        }
    }
}

/// The last member of this name.
fn get_member<'a>(v: &'a Json, name: &str) -> (r: Option<&'a Json>)
    ensures
        opt_tree(r) == get(v.value(), name@),
{
    match v.as_object() {
        Some(m) => {
            assert(member_values(m@).take(m@.len() as int) =~= member_values(m@));
            last_member(m, m.len(), name)
        },
        None => None,
    }
}

/// A value as text.
fn value_key(v: &Option<serde_json::Value>) -> (r: String)
    ensures
        r@ == key_text(opt_held(*v)),
{
    match v {
        Some(x) => match x.as_str() {
            Some(s) => s.to_owned(),
            None => print_compact(x),
        },
        None => "?".to_owned(),
    }
}

/// A number as an integer.
fn value_to_i64(v: &Json) -> (r: Option<i64>)
    ensures
        r == to_int(v.value()),
{
    if let Some(n) = v.as_i64() {
        return Some(n);
    }
    if v.as_u64().is_some() {
        return None;
    }
    match v.number_bits() {
        Some(b) => Some(round_nearest(b)),
        None => None,
    }
}

/// A number as an integer.
fn held_to_i64(v: &serde_json::Value) -> (r: Option<i64>)
    ensures
        r == to_int(tree(*v)),
{
    if let Some(n) = v.as_i64() {
        return Some(n);
    }
    if v.as_u64().is_some() {
        return None;
    }
    match value_bits(v) {
        Some(b) => Some(round_nearest(b)),
        None => None,
    }
}

fn i64_field(v: &Json, key: &str) -> (r: Option<i64>)
    ensures
        r == int_member(v.value(), key@),
{
    match get_member(v, key) {
        Some(x) => value_to_i64(x),
        None => None,
    }
}

fn read_event(v: &Json) -> (r: Option<TraceEvent>)
    ensures
        match r {
            Some(e) => event_json(v.value()) == Some(e.value()),
            None => event_json(v.value()) is None,
        },
{
    if !record(v, 7) {
        return None;
    }
    if let Some(a) = v.as_array() {
        assert(json_values(a@).len() == a@.len());
        if a.len() < 6 {
            return None;
        }
    }
    let name = match read_opt_text(read_field(v, "name", 0)) {
        Some(n) => n,
        None => {
            return None;
        },
    };
    let args: Option<Json> = match read_field(v, "args", 6) {
        Some(a) => match a.settled() {
            Some(s) => Some(s),
            None => {
                return None;
            },
        },
        None => None,
    };
    let pid = read_opt_value(read_field(v, "pid", 1));
    let tid = read_opt_value(read_field(v, "tid", 2));
    let ts = read_opt_value(read_field(v, "ts", 3));
    let id = read_opt_value(read_field(v, "id", 4));
    let id2 = read_opt_value(read_field(v, "id2", 5));
    match (pid, tid, ts, id, id2) {
        (Some(pid), Some(tid), Some(ts), Some(id), Some(id2)) => Some(
            TraceEvent { name, pid, tid, ts, id, id2, args },
        ),
        _ => None,
    }
}

pub(crate) open spec fn event_values(s: Seq<TraceEvent>) -> Seq<EventView> {
    Seq::new(s.len(), |i: int| s[i].value())
}

fn read_events(v: &Json) -> (r: Option<Vec<TraceEvent>>)
    ensures
        match r {
            Some(e) => events_json(v.value()) == Some(event_values(e@)),
            None => events_json(v.value()) is None,
        },
{
    let a = match v.as_array() {
        Some(a) => a,
        None => {
            return None;
        },
    };
    let ghost t = json_values(a@);
    let mut out: Vec<TraceEvent> = Vec::new();
    for i in 0..a.len()
        invariant
            t == json_values(a@),
            v.value() == JsonView::Array(t),
            out@.len() == i,
            forall|k: int| 0 <= k < i ==> event_json(#[trigger] t[k]) == Some(out@[k].value()),
    {
        match read_event(&a[i]) {
            Some(n) => {
                out.push(n);
            },
            None => {
                assert(event_json(t[i as int]) is None);
                return None;
            },
        }
    }
    assert(event_values(out@) =~= Seq::new(t.len(), |i: int| event_json(t[i]).unwrap()));
    Some(out)
}

/// The events of a trace.
pub(crate) fn parse_trace_events(v: &Json) -> (r: Option<Vec<TraceEvent>>)
    ensures
        match r {
            Some(e) => trace_json(v.value()) == Some(event_values(e@)),
            None => trace_json(v.value()) is None,
        },
{
    if !v.is_readable() {
        return None;
    }
    if record(v, 1) {
        match read_field(v, "traceEvents", 0) {
            Some(list) => {
                if let Some(events) = read_events(list) {
                    return Some(events);
                }
            },
            None => {
                let none: Vec<TraceEvent> = Vec::new();
                assert(event_values(none@) =~= Seq::<EventView>::empty());
                return Some(none);
            },
        }
    }
    read_events(v)
}

/// A node of a CPU profile, which may name its parent.
#[derive(Debug)]
pub(crate) struct RawNode {
    pub(crate) id: i64,
    pub(crate) call_frame: CallFrame,
    pub(crate) children: Vec<i64>,
    pub(crate) parent: Option<i64>,
}

impl RawNode {
    pub(crate) open spec fn value(self) -> RawNodeView {
        RawNodeView {
            id: self.id,
            call_frame: self.call_frame@,
            children: self.children@,
            parent: self.parent,
        }
    }
}

pub(crate) open spec fn raw_node_values(s: Seq<RawNode>) -> Seq<RawNodeView> {
    Seq::new(s.len(), |i: int| s[i].value())
}

/// A piece of a CPU profile.
#[derive(Debug)]
pub(crate) struct ProfileChunk {
    pub(crate) ts: i64,
    pub(crate) nodes: Vec<RawNode>,
    pub(crate) samples: Vec<i64>,
    pub(crate) time_deltas: Vec<i64>,
}

impl ProfileChunk {
    pub(crate) open spec fn value(self) -> ChunkView {
        ChunkView {
            ts: self.ts,
            nodes: raw_node_values(self.nodes@),
            samples: self.samples@,
            time_deltas: self.time_deltas@,
        }
    }
}

pub(crate) open spec fn chunk_values(s: Seq<ProfileChunk>) -> Seq<ChunkView> {
    Seq::new(s.len(), |i: int| s[i].value())
}

/// The pieces of one profile that have come so far.
pub(crate) struct PartialProfile {
    pub(crate) key: String,
    pub(crate) start_time: Option<i64>,
    pub(crate) end_time: Option<i64>,
    pub(crate) chunks: Vec<ProfileChunk>,
}

impl PartialProfile {
    pub(crate) open spec fn value(self) -> StreamView {
        StreamView {
            start_time: self.start_time,
            end_time: self.end_time,
            chunks: chunk_values(self.chunks@),
        }
    }
}

fn read_raw_node(v: &Json) -> (r: Option<RawNode>)
    ensures
        match r {
            Some(n) => raw_node_json(v.value()) == Some(n.value()),
            None => raw_node_json(v.value()) is None,
        },
{
    if !record(v, 4) {
        return None;
    }
    let id: i64 = match read_int_field(read_field(v, "id", 0)) {
        Some(n) => n,
        None => {
            return None;
        },
    };
    let call_frame = match read_frame_field(read_field(v, "callFrame", 1)) {
        Some(f) => f,
        None => {
            return None;
        },
    };
    let children = match read_ints_or_none(read_field(v, "children", 2)) {
        Some(c) => c,
        None => {
            return None;
        },
    };
    let parent: Option<i64> = match read_opt_int(read_field(v, "parent", 3)) {
        Some(p) => p,
        None => {
            return None;
        },
    };
    Some(RawNode { id, call_frame, children, parent })
}

fn read_raw_nodes(f: Option<&Json>) -> (r: Option<Vec<RawNode>>)
    ensures
        match r {
            Some(n) => raw_nodes_json(opt_tree(f)) == Some(raw_node_values(n@)),
            None => raw_nodes_json(opt_tree(f)) is None,
        },
{
    let mut out: Vec<RawNode> = Vec::new();
    let v = match f {
        Some(v) => v,
        None => {
            assert(raw_node_values(out@) =~= Seq::<RawNodeView>::empty());
            return Some(out);
        },
    };
    let a = match v.as_array() {
        Some(a) => a,
        None => {
            return None;
        },
    };
    let ghost t = json_values(a@);
    for i in 0..a.len()
        invariant
            t == json_values(a@),
            opt_tree(f) == Some(JsonView::Array(t)),
            out@.len() == i,
            forall|k: int| 0 <= k < i ==> raw_node_json(#[trigger] t[k]) == Some(out@[k].value()),
    {
        match read_raw_node(&a[i]) {
            Some(n) => {
                out.push(n);
            },
            None => {
                assert(raw_node_json(t[i as int]) is None);
                return None;
            },
        }
    }
    assert(raw_node_values(out@) =~= Seq::new(t.len(), |i: int| raw_node_json(t[i]).unwrap()));
    Some(out)
}

fn read_chunk(data: &Json, profile: &Json, ts: i64) -> (r: Option<ProfileChunk>)
    ensures
        match r {
            Some(c) => chunk_json(data.value(), profile.value(), ts) == Some(c.value()),
            None => chunk_json(data.value(), profile.value(), ts) is None,
        },
{
    if !record(profile, 3) {
        return None;
    }
    let nodes = match read_raw_nodes(read_field(profile, "nodes", 0)) {
        Some(n) => n,
        None => {
            return None;
        },
    };
    let samples = match read_ints_or_none(read_field(profile, "samples", 1)) {
        Some(n) => n,
        None => {
            return None;
        },
    };
    let deltas = match read_ints_or_none(read_field(profile, "timeDeltas", 2)) {
        Some(n) => n,
        None => {
            return None;
        },
    };
    let outer_samples = match read_ints_or_none(get_member(data, "samples")) {
        Some(n) => n,
        None => {
            return None;
        },
    };
    let outer_deltas = match read_ints_or_none(get_member(data, "timeDeltas")) {
        Some(n) => n,
        None => {
            return None;
        },
    };
    Some(
        ProfileChunk {
            ts,
            nodes,
            samples: if outer_samples.len() == 0 {
                samples
            } else {
                outer_samples
            },
            time_deltas: if outer_deltas.len() == 0 {
                deltas
            } else {
                outer_deltas
            },
        },
    )
}

/// Takes an event into its stream. `false` where its profile is malformed.
pub(crate) fn ingest_profile_event(stream: &mut PartialProfile, event: &TraceEvent) -> (ok: bool)
    ensures
        match ingested(old(stream).value(), event.value()) {
            Some(s) => ok && final(stream).value() == s,
            None => !ok,
        },
        final(stream).key == old(stream).key,
{
    let data = match event.data() {
        Some(d) => d,
        None => {
            return true;
        },
    };
    if stream.start_time.is_none() {
        stream.start_time = i64_field(data, "startTime");
    }
    if stream.end_time.is_none() {
        stream.end_time = i64_field(data, "endTime");
    }
    let profile = match get_member(data, "cpuProfile") {
        Some(p) => p,
        None => {
            if get_member(data, "nodes").is_none() {
                return true;
            }
            data
        },
    };
    if stream.start_time.is_none() {
        stream.start_time = i64_field(profile, "startTime");
    }
    if stream.end_time.is_none() {
        stream.end_time = i64_field(profile, "endTime");
    }
    match read_chunk(data, profile, event.ts()) {
        Some(c) => {
            let ghost before = stream.chunks@;
            stream.chunks.push(c);
            assert(chunk_values(stream.chunks@) =~= chunk_values(before).push(c.value()));
            true
        },
        None => false,
    }
}

} // verus!

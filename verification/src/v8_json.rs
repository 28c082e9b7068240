//! Reading V8 CPU and heap profiles out of JSON.
use vstd::prelude::*;
use crate::cpuprofile::{node_views, CpuNode, CpuNodeView, CpuProfile, CpuProfileView};
use crate::heapprofile::{HeapNode, HeapNodeView, HeapProfile, HeapSample};
use crate::json::{as_int, compact_json, print_compact, JsonView};
use crate::json_read::{
    field, int_or, ints, ints_or_none, is_record, only_member, opt_tree, read_field, read_int_or,
    read_ints, read_ints_or_none, read_short_or, read_text_or, record, short_or, text_or,
};
use crate::json_text::{as_value, bytes_json, json_values, read_bytes, Json};
use crate::v8::{CallFrame, CallFrameView};

verus! {

/// A value of any kind as JSON text, `null` where the field is missing.
pub open spec fn value_text(f: Option<JsonView>) -> Option<Seq<char>> {
    match f {
        Some(j) => match as_value(j) {
            Some(v) => Some(compact_json(v)),
            None => None,
        },
        None => Some("null"@),
    }
}

/// A call frame. The script id is kept as JSON text.
pub open spec fn frame_json(j: JsonView) -> Option<CallFrameView> {
    let name = text_or(field(j, "functionName"@, 0), Seq::empty());
    let url = text_or(field(j, "url"@, 1), Seq::empty());
    let script_id = value_text(field(j, "scriptId"@, 2));
    let line = short_or(field(j, "lineNumber"@, 3), -1i32);
    let column = short_or(field(j, "columnNumber"@, 4), -1i32);
    if is_record(j, 5) && name is Some && url is Some && script_id is Some && line is Some && column is Some {
        Some(
            CallFrameView {
                function_name: name.unwrap(),
                url: url.unwrap(),
                script_id: script_id.unwrap(),
                line_number: line.unwrap(),
                column_number: column.unwrap(),
            },
        )
    } else {
        None
    }
}

/// A call frame that must be there.
pub open spec fn frame_field(f: Option<JsonView>) -> Option<CallFrameView> {
    match f {
        Some(j) => frame_json(j),
        None => None,
    }
}

/// An integer that must be there.
pub open spec fn int_field(f: Option<JsonView>) -> Option<i64> {
    match f {
        Some(j) => as_int(j),
        None => None,
    }
}

pub(crate) fn read_frame(v: &Json) -> (r: Option<CallFrame>)
    ensures
        match r {
            Some(f) => frame_json(v.value()) == Some(f@),
            None => frame_json(v.value()) is None,
        },
{
    proof {
        reveal_strlit("");
        assert(""@ =~= Seq::<char>::empty());
    }
    if !record(v, 5) {
        return None;
    }
    let function_name = match read_text_or(read_field(v, "functionName", 0), "") {
        Some(s) => s,
        None => {
            return None;
        },
    };
    let url = match read_text_or(read_field(v, "url", 1), "") {
        Some(s) => s,
        None => {
            return None;
        },
    };
    let script_id = match read_field(v, "scriptId", 2) {
        Some(id) => match id.to_value() {
            Some(x) => print_compact(&x),
            None => {
                return None;
            },
        },
        None => "null".to_owned(),
    };
    let line_number: i32 = match read_short_or(read_field(v, "lineNumber", 3), -1) {
        Some(n) => n,
        None => {
            return None;
        },
    };
    let column_number: i32 = match read_short_or(read_field(v, "columnNumber", 4), -1) {
        Some(n) => n,
        None => {
            return None;
        },
    };
    Some(CallFrame { function_name, url, script_id, line_number, column_number })
}

pub(crate) fn read_frame_field(f: Option<&Json>) -> (r: Option<CallFrame>)
    ensures
        match r {
            Some(x) => frame_field(opt_tree(f)) == Some(x@),
            None => frame_field(opt_tree(f)) is None,
        },
{
    match f {
        Some(v) => read_frame(v),
        None => None,
    }
}

pub(crate) fn read_int_field(f: Option<&Json>) -> (r: Option<i64>)
    ensures
        r == int_field(opt_tree(f)),
{
    match f {
        Some(v) => v.as_i64(),
        None => None,
    }
}

/// A node of a CPU profile.
pub open spec fn cpu_node_json(j: JsonView) -> Option<CpuNodeView> {
    let id = int_field(field(j, "id"@, 0));
    let frame = frame_field(field(j, "callFrame"@, 1));
    let children = ints_or_none(field(j, "children"@, 2));
    if is_record(j, 3) && id is Some && frame is Some && children is Some {
        Some(CpuNodeView { id: id.unwrap(), call_frame: frame.unwrap(), children: children.unwrap() })
    } else {
        None
    }
}

/// The nodes of a CPU profile.
pub open spec fn cpu_nodes_json(f: Option<JsonView>) -> Option<Seq<CpuNodeView>> {
    match f {
        Some(JsonView::Array(a)) => if forall|i: int| 0 <= i < a.len() ==> cpu_node_json(#[trigger] a[i]) is Some {
            Some(Seq::new(a.len(), |i: int| cpu_node_json(a[i]).unwrap()))
        } else {
            None
        },
        _ => None,
    }
}

/// A CPU profile.
pub open spec fn cpu_profile_json(j: JsonView) -> Option<CpuProfileView> {
    let nodes = cpu_nodes_json(field(j, "nodes"@, 0));
    let samples = match field(j, "samples"@, 1) {
        Some(s) => ints(s),
        None => None,
    };
    let time_deltas = ints_or_none(field(j, "timeDeltas"@, 2));
    let start_time = int_or(field(j, "startTime"@, 3), 0);
    let end_time = int_or(field(j, "endTime"@, 4), 0);
    if is_record(j, 5) && nodes is Some && samples is Some && time_deltas is Some && start_time is Some
        && end_time is Some {
        Some(
            CpuProfileView {
                nodes: nodes.unwrap(),
                samples: samples.unwrap(),
                time_deltas: time_deltas.unwrap(),
                start_time: start_time.unwrap(),
                end_time: end_time.unwrap(),
            },
        )
    } else {
        None
    }
}

fn read_cpu_node(v: &Json) -> (r: Option<CpuNode>)
    ensures
        match r {
            Some(n) => cpu_node_json(v.value()) == Some(n@),
            None => cpu_node_json(v.value()) is None,
        },
{
    if !record(v, 3) {
        return None;
    }
    let id: i64 = match read_int_field(read_field(v, "id", 0)) {
        Some(n) => n,
        None => {
            return None;
        },
    };
    let call_frame = match read_frame_field(read_field(v, "callFrame", 1)) {
        Some(f) => f,
        None => {
            return None;
        },
    };
    let children = match read_ints_or_none(read_field(v, "children", 2)) {
        Some(c) => c,
        None => {
            return None;
        },
    };
    Some(CpuNode { id, call_frame, children })
}

fn read_cpu_nodes(f: Option<&Json>) -> (r: Option<Vec<CpuNode>>)
    ensures
        match r {
            Some(n) => cpu_nodes_json(opt_tree(f)) == Some(node_views(n@)),
            None => cpu_nodes_json(opt_tree(f)) is None,
        },
{
    let v = match f {
        Some(v) => v,
        None => {
            return None;
        },
    };
    let a = match v.as_array() {
        Some(a) => a,
        None => {
            return None;
        },
    };
    let ghost t = json_values(a@);
    let mut out: Vec<CpuNode> = Vec::new();
    for i in 0..a.len()
        invariant
            t == json_values(a@),
            opt_tree(f) == Some(JsonView::Array(t)),
            out@.len() == i,
            forall|k: int| 0 <= k < i ==> cpu_node_json(#[trigger] t[k]) == Some(out@[k]@),
    {
        match read_cpu_node(&a[i]) {
            Some(n) => {
                out.push(n);
            },
            None => {
                assert(cpu_node_json(t[i as int]) is None);
                return None;
            },
        }
    }
    assert(node_views(out@) =~= Seq::new(t.len(), |i: int| cpu_node_json(t[i]).unwrap()));
    Some(out)
}

fn read_cpu_profile(v: &Json) -> (r: Option<CpuProfile>)
    ensures
        match r {
            Some(p) => cpu_profile_json(v.value()) == Some(p@),
            None => cpu_profile_json(v.value()) is None,
        },
{
    if !record(v, 5) {
        return None;
    }
    let nodes = match read_cpu_nodes(read_field(v, "nodes", 0)) {
        Some(n) => n,
        None => {
            return None;
        },
    };
    let samples = match read_field(v, "samples", 1) {
        Some(s) => match read_ints(s) {
            Some(x) => x,
            None => {
                return None;
            },
        },
        None => {
            return None;
        },
    };
    let time_deltas = match read_ints_or_none(read_field(v, "timeDeltas", 2)) {
        Some(x) => x,
        None => {
            return None;
        },
    };
    let start_time: i64 = match read_int_or(read_field(v, "startTime", 3), 0) {
        Some(n) => n,
        None => {
            return None;
        },
    };
    let end_time: i64 = match read_int_or(read_field(v, "endTime", 4), 0) {
        Some(n) => n,
        None => {
            return None;
        },
    };
    Some(CpuProfile { nodes, samples, time_deltas, start_time, end_time })
}

/// The text is no JSON, or no profile.
#[derive(Clone, Copy, Debug, PartialEq, Eq, Structural)]
pub enum ReadError {
    Json,
    Shape,
}

impl CpuProfile {
    /// Reads a `.cpuprofile` file.
    pub fn from_json(bytes: &[u8]) -> (r: Result<CpuProfile, ReadError>)
        ensures
            match bytes_json(bytes@) {
                None => r == Err::<CpuProfile, ReadError>(ReadError::Json),
                Some(j) => match r {
                    Ok(p) => cpu_profile_json(j) == Some(p@),
                    Err(e) => e == ReadError::Shape && cpu_profile_json(j) is None,
                },
            },
    {
        match read_bytes(bytes) {
            Some(v) => match read_cpu_profile(&v) {
                Some(p) => Ok(p),
                None => Err(ReadError::Shape),
            },
            None => Err(ReadError::Json),
        }
    }
}

/// A node of a heap profile, with those below it.
pub open spec fn heap_node_json(j: JsonView) -> Option<HeapNodeView>
    decreases j,
    via lemma_heap_node_json
{
    let frame = frame_field(field(j, "callFrame"@, 0));
    let self_size = int_or(field(j, "selfSize"@, 1), 0);
    let id = int_field(field(j, "id"@, 2));
    let below = match field(j, "children"@, 3) {
        None => Some(Seq::empty()),
        Some(JsonView::Array(a)) => if forall|i: int| 0 <= i < a.len() ==> heap_node_json(#[trigger] a[i]) is Some {
            Some(
                Seq::new(
                    a.len(),
                    |i: int|
                        if 0 <= i < a.len() {
                            heap_node_json(a[i]).unwrap()
                        } else {
                            arbitrary()
                        },
                ),
            )
        } else {
            None
        },
        _ => None,
    };
    if is_record(j, 4) && frame is Some && self_size is Some && id is Some && below is Some {
        Some(
            HeapNodeView {
                call_frame: frame.unwrap(),
                self_size: self_size.unwrap(),
                id: id.unwrap(),
                children: below.unwrap(),
            },
        )
    } else {
        None
    }
}

#[via_fn]
proof fn lemma_heap_node_json(j: JsonView) {
    lemma_field_smaller(j, "children"@, 3);
}

/// An array that stands in a record is smaller than the record.
proof fn lemma_field_smaller(j: JsonView, name: Seq<char>, pos: nat)
    ensures
        field(j, name, pos) matches Some(JsonView::Array(a)) ==> decreases_to!(j => JsonView::Array(a)),
{
    match j {
        JsonView::Object(m) => lemma_member_smaller(m, name),
        _ => {},
    }
}

proof fn lemma_member_smaller(m: Seq<(Seq<char>, JsonView)>, name: Seq<char>)
    ensures
        only_member(m, name) matches Some(f) ==> f is Unread || exists|i: int|
            0 <= i < m.len() && (#[trigger] m[i]).1 == f,
    decreases m.len(),
{
    if m.len() > 0 {
        let front = m.drop_last();
        lemma_member_smaller(front, name);
        if m.last().0 == name {
            assert(m[m.len() - 1].1 == m.last().1);
        } else if let Some(f) = only_member(m, name) {
            if !(f is Unread) {
                let i = choose|i: int| 0 <= i < front.len() && (#[trigger] front[i]).1 == f;
                assert(m[i].1 == f);
            }
        }
    }
}

fn read_heap_node(v: &Json) -> (r: Option<HeapNode>)
    ensures
        match r {
            Some(n) => heap_node_json(v.value()) == Some(n.tree()),
            None => heap_node_json(v.value()) is None,
        },
    decreases v.value(),
{
    let ghost j = v.value();
    proof {
        lemma_field_smaller(j, "children"@, 3);
    }
    if !record(v, 4) {
        return None;
    }
    let call_frame = match read_frame_field(read_field(v, "callFrame", 0)) {
        Some(f) => f,
        None => {
            return None;
        },
    };
    let self_size: i64 = match read_int_or(read_field(v, "selfSize", 1), 0) {
        Some(n) => n,
        None => {
            return None;
        },
    };
    let id: i64 = match read_int_field(read_field(v, "id", 2)) {
        Some(n) => n,
        None => {
            return None;
        },
    };
    let mut children: Vec<HeapNode> = Vec::new();
    match read_field(v, "children", 3) {
        None => {
            let node = HeapNode { call_frame, self_size, id, children };
            proof {
                let want = heap_node_json(j);
                assert(want is Some);
                assert(want.unwrap().children =~= node.tree().children);
            }
            Some(node)
        },
        Some(list) => {
            let a = match list.as_array() {
                Some(a) => a,
                None => {
                    return None;
                },
            };
            let ghost t = json_values(a@);
            assert(field(j, "children"@, 3) == Some(JsonView::Array(t)));
            for i in 0..a.len()
                invariant
                    j == v.value(),
                    t == json_values(a@),
                    field(j, "children"@, 3) == Some(JsonView::Array(t)),
                    decreases_to!(j => JsonView::Array(t)),
                    children@.len() == i,
                    forall|k: int| 0 <= k < i ==> heap_node_json(#[trigger] t[k]) == Some(children@[k].tree()),
                    is_record(j, 4),
                    frame_field(field(j, "callFrame"@, 0)) == Some(call_frame@),
                    int_or(field(j, "selfSize"@, 1), 0) == Some(self_size),
                    int_field(field(j, "id"@, 2)) == Some(id),
            {
                assert(t[i as int] == a@[i as int].value());
                assert(decreases_to!(JsonView::Array(t) => t[i as int]));
                match read_heap_node(&a[i]) {
                    Some(n) => {
                        children.push(n);
                    },
                    None => {
                        assert(heap_node_json(t[i as int]) is None);
                        return None;
                    },
                }
            }
            let node = HeapNode { call_frame, self_size, id, children };
            proof {
                let want = heap_node_json(j);
                assert(want is Some);
                assert(want.unwrap().children =~= node.tree().children);
            }
            Some(node)
        },
    }
}

/// An allocation sample of a heap profile.
pub open spec fn heap_sample_json(j: JsonView) -> Option<HeapSample> {
    let size = int_field(field(j, "size"@, 0));
    let node_id = int_field(field(j, "nodeId"@, 1));
    let ordinal = int_or(field(j, "ordinal"@, 2), 0);
    if is_record(j, 3) && size is Some && node_id is Some && ordinal is Some {
        Some(HeapSample { size: size.unwrap(), node_id: node_id.unwrap(), ordinal: ordinal.unwrap() })
    } else {
        None
    }
}

/// The allocation samples of a heap profile.
pub open spec fn heap_samples_json(f: Option<JsonView>) -> Option<Seq<HeapSample>> {
    match f {
        None => Some(Seq::empty()),
        Some(JsonView::Array(a)) => if forall|i: int|
            0 <= i < a.len() ==> heap_sample_json(#[trigger] a[i]) is Some {
            Some(Seq::new(a.len(), |i: int| heap_sample_json(a[i]).unwrap()))
        } else {
            None
        },
        _ => None,
    }
}

/// A heap profile: its call tree and its allocation samples.
pub open spec fn heap_profile_json(j: JsonView) -> Option<(HeapNodeView, Seq<HeapSample>)> {
    let head = match field(j, "head"@, 0) {
        Some(h) => heap_node_json(h),
        None => None,
    };
    let samples = heap_samples_json(field(j, "samples"@, 1));
    if is_record(j, 2) && head is Some && samples is Some {
        Some((head.unwrap(), samples.unwrap()))
    } else {
        None
    }
}

fn read_heap_sample(v: &Json) -> (r: Option<HeapSample>)
    ensures
        r == heap_sample_json(v.value()),
{
    if !record(v, 3) {
        return None;
    }
    let size: i64 = match read_int_field(read_field(v, "size", 0)) {
        Some(n) => n,
        None => {
            return None;
        },
    };
    let node_id: i64 = match read_int_field(read_field(v, "nodeId", 1)) {
        Some(n) => n,
        None => {
            return None;
        },
    };
    let ordinal: i64 = match read_int_or(read_field(v, "ordinal", 2), 0) {
        Some(n) => n,
        None => {
            return None;
        },
    };
    Some(HeapSample { size, node_id, ordinal })
}

fn read_heap_samples(f: Option<&Json>) -> (r: Option<Vec<HeapSample>>)
    ensures
        match r {
            Some(s) => heap_samples_json(opt_tree(f)) == Some(s@),
            None => heap_samples_json(opt_tree(f)) is None,
        },
{
    let v = match f {
        Some(v) => v,
        None => {
            return Some(Vec::new());
        },
    };
    let a = match v.as_array() {
        Some(a) => a,
        None => {
            return None;
        },
    };
    let ghost t = json_values(a@);
    let mut out: Vec<HeapSample> = Vec::new();
    for i in 0..a.len()
        invariant
            t == json_values(a@),
            opt_tree(f) == Some(JsonView::Array(t)),
            out@.len() == i,
            forall|k: int| 0 <= k < i ==> heap_sample_json(#[trigger] t[k]) == Some(out@[k]),
    {
        match read_heap_sample(&a[i]) {
            Some(n) => {
                out.push(n);
            },
            None => {
                assert(heap_sample_json(t[i as int]) is None);
                return None;
            },
        }
    }
    assert(out@ =~= Seq::new(t.len(), |i: int| heap_sample_json(t[i]).unwrap()));
    Some(out)
}

impl HeapProfile {
    /// Reads a `.heapprofile` file.
    pub fn from_json(bytes: &[u8]) -> (r: Result<HeapProfile, ReadError>)
        ensures
            match bytes_json(bytes@) {
                None => r == Err::<HeapProfile, ReadError>(ReadError::Json),
                Some(j) => match r {
                    Ok(p) => heap_profile_json(j) == Some((p.head.tree(), p.samples@)),
                    Err(e) => e == ReadError::Shape && heap_profile_json(j) is None,
                },
            },
    {
        let v = match read_bytes(bytes) {
            Some(v) => v,
            None => {
                return Err(ReadError::Json);
            },
        };
        if !record(&v, 2) {
            return Err(ReadError::Shape);
        }
        let head = match read_field(&v, "head", 0) {
            Some(h) => match read_heap_node(h) {
                Some(n) => n,
                None => {
                    return Err(ReadError::Shape);
                },
            },
            None => {
                return Err(ReadError::Shape);
            },
        };
        match read_heap_samples(read_field(&v, "samples", 1)) {
            Some(samples) => Ok(HeapProfile { head, samples }),
            None => Err(ReadError::Shape),
        }
    }
}

} // verus!

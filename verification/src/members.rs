//! What is read of the members of JSON objects.
use vstd::prelude::*;
use crate::cpuprofile::{CpuNodeView, CpuProfileView};
use crate::firefox_json::{sym_entry_json, sym_frame_json, thread_matches};
use crate::firefox_model::Thread;
use crate::heapprofile::{HeapNodeView, HeapSample};
use crate::json::{as_bits, member_of, JsonView};
use crate::json_read::{field, only_member};
use crate::resolve::FrameView;
use crate::samply::{SymEntryView, SymFrame};
use crate::speedscope::SampledProfileView;
use crate::speedscope_json::{indices_json, sampled_json};
use crate::trace_events::{raw_node_json, RawNodeView};
use crate::v8::CallFrameView;
use crate::v8_json::{
    cpu_node_json, cpu_profile_json, frame_json, heap_node_json, heap_profile_json, heap_sample_json,
};

verus! {

/// Whether an object has one member of a name, with this value.
pub open spec fn holds(j: JsonView, name: Seq<char>, v: JsonView) -> bool {
    j matches JsonView::Object(m) && exists|k: int|
        0 <= k < m.len() && #[trigger] m[k] == (name, v) && forall|i: int|
            0 <= i < m.len() && i != k ==> (#[trigger] m[i]).0 != name
}

/// Whether an object has no member of a name.
pub open spec fn lacks(j: JsonView, name: Seq<char>) -> bool {
    j matches JsonView::Object(m) && forall|i: int| 0 <= i < m.len() ==> (#[trigger] m[i]).0 != name
}

/// Whether a value is this integer.
pub open spec fn is_integer(v: JsonView, n: i64) -> bool {
    v matches JsonView::Number { signed: Some(x), .. } && x == n
}

proof fn lemma_not_member(m: Seq<(Seq<char>, JsonView)>, name: Seq<char>)
    requires
        forall|i: int| 0 <= i < m.len() ==> (#[trigger] m[i]).0 != name,
    ensures
        only_member(m, name) is None,
        member_of(m, name) is None,
    decreases m.len(),
{
    if m.len() > 0 {
        let front = m.drop_last();
        assert(m[m.len() - 1].0 != name);
        assert forall|i: int| 0 <= i < front.len() implies (#[trigger] front[i]).0 != name by {
            assert(m[i].0 != name);
        }
        lemma_not_member(front, name);
    }
}

proof fn lemma_member(m: Seq<(Seq<char>, JsonView)>, k: int)
    requires
        0 <= k < m.len(),
        forall|i: int| 0 <= i < m.len() && i != k ==> (#[trigger] m[i]).0 != m[k].0,
    ensures
        only_member(m, m[k].0) == Some(m[k].1),
    decreases m.len(),
{
    let front = m.drop_last();
    if k == m.len() - 1 {
        assert forall|i: int| 0 <= i < front.len() implies (#[trigger] front[i]).0 != m[k].0 by {
            assert(m[i].0 != m[k].0);
        }
        lemma_not_member(front, m[k].0);
    } else {
        assert(m[m.len() - 1].0 != m[k].0);
        assert forall|i: int| 0 <= i < front.len() && i != k implies (#[trigger] front[i]).0 != front[k].0 by {
            assert(m[i].0 != m[k].0);
        }
        lemma_member(front, k);
    }
}

/// A member is found by its name, wherever it stands, and none is made up.
pub proof fn law_member_found(j: JsonView, name: Seq<char>, v: JsonView, pos: nat)
    ensures
        holds(j, name, v) ==> field(j, name, pos) == Some(v),
        lacks(j, name) ==> field(j, name, pos) is None,
{
    if let JsonView::Object(m) = j {
        if holds(j, name, v) {
            let k = choose|k: int|
                0 <= k < m.len() && #[trigger] m[k] == (name, v) && forall|i: int|
                    0 <= i < m.len() && i != k ==> (#[trigger] m[i]).0 != name;
            lemma_member(m, k);
        }
        if lacks(j, name) {
            lemma_not_member(m, name);
        }
    }
}

/// A call frame has the name and the URL of its members, and empty ones where it lacks them. A
/// line or a column that it lacks is -1.
pub proof fn law_frame_read(j: JsonView, f: CallFrameView, s: Seq<char>, v: JsonView, n: i64)
    requires
        frame_json(j) == Some(f),
        is_integer(v, n),
    ensures
        holds(j, "functionName"@, JsonView::Text(s)) ==> f.function_name == s,
        lacks(j, "functionName"@) ==> f.function_name.len() == 0,
        holds(j, "url"@, JsonView::Text(s)) ==> f.url == s,
        lacks(j, "url"@) ==> f.url.len() == 0,
        holds(j, "lineNumber"@, v) ==> f.line_number == n,
        lacks(j, "lineNumber"@) ==> f.line_number == -1,
        holds(j, "columnNumber"@, v) ==> f.column_number == n,
        lacks(j, "columnNumber"@) ==> f.column_number == -1,
{
    law_member_found(j, "functionName"@, JsonView::Text(s), 0);
    law_member_found(j, "url"@, JsonView::Text(s), 1);
    law_member_found(j, "lineNumber"@, v, 3);
    law_member_found(j, "columnNumber"@, v, 4);
}

/// A node of a CPU profile has its id, its frame and its children.
pub proof fn law_cpu_node_read(j: JsonView, x: CpuNodeView, v: JsonView, n: i64, frame: JsonView, kids: Seq<JsonView>, k: int)
    requires
        cpu_node_json(j) == Some(x),
        is_integer(v, n),
    ensures
        holds(j, "id"@, v) ==> x.id == n,
        holds(j, "callFrame"@, frame) ==> frame_json(frame) == Some(x.call_frame),
        holds(j, "children"@, JsonView::Array(kids)) ==> x.children.len() == kids.len() && (0 <= k < kids.len() && is_integer(
            kids[k],
            n,
        ) ==> x.children[k] == n),
        lacks(j, "children"@) ==> x.children.len() == 0,
{
    law_member_found(j, "id"@, v, 0);
    law_member_found(j, "callFrame"@, frame, 1);
    law_member_found(j, "children"@, JsonView::Array(kids), 2);
}

/// A CPU profile has its nodes, the leaf of each sample, the times before them, and its start
/// and end, which are 0 where it lacks them.
pub proof fn law_cpu_profile_read(j: JsonView, x: CpuProfileView, v: JsonView, n: i64, list: Seq<JsonView>, k: int)
    requires
        cpu_profile_json(j) == Some(x),
        is_integer(v, n),
    ensures
        holds(j, "nodes"@, JsonView::Array(list)) ==> x.nodes.len() == list.len() && (0 <= k < list.len() ==> cpu_node_json(
            list[k],
        ) == Some(x.nodes[k])),
        holds(j, "samples"@, JsonView::Array(list)) ==> x.samples.len() == list.len() && (0 <= k < list.len()
            && is_integer(list[k], n) ==> x.samples[k] == n),
        holds(j, "timeDeltas"@, JsonView::Array(list)) ==> x.time_deltas.len() == list.len() && (0 <= k < list.len()
            && is_integer(list[k], n) ==> x.time_deltas[k] == n),
        lacks(j, "timeDeltas"@) ==> x.time_deltas.len() == 0,
        holds(j, "startTime"@, v) ==> x.start_time == n,
        lacks(j, "startTime"@) ==> x.start_time == 0,
        holds(j, "endTime"@, v) ==> x.end_time == n,
        lacks(j, "endTime"@) ==> x.end_time == 0,
{
    law_member_found(j, "nodes"@, JsonView::Array(list), 0);
    law_member_found(j, "samples"@, JsonView::Array(list), 1);
    law_member_found(j, "timeDeltas"@, JsonView::Array(list), 2);
    law_member_found(j, "startTime"@, v, 3);
    law_member_found(j, "endTime"@, v, 4);
    if holds(j, "nodes"@, JsonView::Array(list)) && 0 <= k < list.len() {
        assert(cpu_node_json(list[k]) is Some);
    }
}

/// A node of a heap profile has its frame, its bytes, its id and those below it.
pub proof fn law_heap_node_read(j: JsonView, x: HeapNodeView, v: JsonView, n: i64, frame: JsonView, list: Seq<JsonView>, k: int)
    requires
        heap_node_json(j) == Some(x),
        is_integer(v, n),
    ensures
        holds(j, "callFrame"@, frame) ==> frame_json(frame) == Some(x.call_frame),
        holds(j, "selfSize"@, v) ==> x.self_size == n,
        lacks(j, "selfSize"@) ==> x.self_size == 0,
        holds(j, "id"@, v) ==> x.id == n,
        holds(j, "children"@, JsonView::Array(list)) ==> x.children.len() == list.len() && (0 <= k < list.len()
            ==> heap_node_json(list[k]) == Some(x.children[k])),
        lacks(j, "children"@) ==> x.children.len() == 0,
{
    law_member_found(j, "callFrame"@, frame, 0);
    law_member_found(j, "selfSize"@, v, 1);
    law_member_found(j, "id"@, v, 2);
    law_member_found(j, "children"@, JsonView::Array(list), 3);
    if holds(j, "children"@, JsonView::Array(list)) && 0 <= k < list.len() {
        assert(heap_node_json(list[k]) is Some);
    }
}

/// An allocation sample has its bytes and the node that allocated, and a heap profile its tree
/// and its samples.
pub proof fn law_heap_samples_read(
    j: JsonView,
    x: HeapSample,
    v: JsonView,
    n: i64,
    p: JsonView,
    tree: (HeapNodeView, Seq<HeapSample>),
    head: JsonView,
    list: Seq<JsonView>,
    k: int,
)
    requires
        heap_sample_json(j) == Some(x),
        heap_profile_json(p) == Some(tree),
        is_integer(v, n),
    ensures
        holds(j, "size"@, v) ==> x.size == n,
        holds(j, "nodeId"@, v) ==> x.node_id == n,
        holds(p, "head"@, head) ==> heap_node_json(head) == Some(tree.0),
        holds(p, "samples"@, JsonView::Array(list)) ==> tree.1.len() == list.len() && (0 <= k < list.len()
            ==> heap_sample_json(list[k]) == Some(tree.1[k])),
        lacks(p, "samples"@) ==> tree.1.len() == 0,
{
    law_member_found(j, "size"@, v, 0);
    law_member_found(j, "nodeId"@, v, 1);
    law_member_found(p, "head"@, head, 0);
    law_member_found(p, "samples"@, JsonView::Array(list), 1);
    if holds(p, "samples"@, JsonView::Array(list)) && 0 <= k < list.len() {
        assert(heap_sample_json(list[k]) is Some);
    }
}

/// A node of a trace has its id, its frame and its children, and may name its parent.
pub proof fn law_trace_node_read(j: JsonView, x: RawNodeView, v: JsonView, n: i64, frame: JsonView)
    requires
        raw_node_json(j) == Some(x),
        is_integer(v, n),
    ensures
        holds(j, "id"@, v) ==> x.id == n,
        holds(j, "callFrame"@, frame) ==> frame_json(frame) == Some(x.call_frame),
        holds(j, "parent"@, v) ==> x.parent == Some(n),
        lacks(j, "parent"@) ==> x.parent is None,
        lacks(j, "children"@) ==> x.children.len() == 0,
{
    law_member_found(j, "id"@, v, 0);
    law_member_found(j, "callFrame"@, frame, 1);
    law_member_found(j, "children"@, v, 2);
    law_member_found(j, "parent"@, v, 3);
}

/// Whether a value is this number that is not negative.
pub open spec fn is_natural(v: JsonView, n: u64) -> bool {
    v matches JsonView::Number { unsigned: Some(x), .. } && x == n
}

/// Whether a value is the number with this bit pattern.
pub open spec fn is_double(v: JsonView, b: u64) -> bool {
    as_bits(v) == Some(b)
}

/// A Speedscope frame has its name, and may have a file, a line and a column.
pub proof fn law_speedscope_frame_read(j: JsonView, f: FrameView, s: Seq<char>, v: JsonView, n: i64)
    requires
        crate::speedscope_json::frame_json(j) == Some(f),
        is_integer(v, n),
    ensures
        holds(j, "name"@, JsonView::Text(s)) ==> f.name == s,
        holds(j, "file"@, JsonView::Text(s)) ==> f.file == Some(s),
        lacks(j, "file"@) ==> f.file is None,
        holds(j, "line"@, v) ==> f.line == Some(n),
        lacks(j, "line"@) ==> f.line is None,
        holds(j, "col"@, v) ==> f.col == Some(n),
        lacks(j, "col"@) ==> f.col is None,
{
    law_member_found(j, "name"@, JsonView::Text(s), 0);
    law_member_found(j, "file"@, JsonView::Text(s), 1);
    law_member_found(j, "line"@, v, 2);
    law_member_found(j, "col"@, v, 3);
}

/// A Speedscope profile has its type, its unit, its ends, its stacks and their weights.
pub proof fn law_speedscope_profile_read(
    j: JsonView,
    x: SampledProfileView,
    s: Seq<char>,
    v: JsonView,
    b: u64,
    list: Seq<JsonView>,
    k: int,
)
    requires
        sampled_json(j) == Some(x),
        is_double(v, b),
    ensures
        holds(j, "type"@, JsonView::Text(s)) ==> x.profile_type == s,
        holds(j, "unit"@, JsonView::Text(s)) ==> x.unit == s,
        holds(j, "startValue"@, v) ==> x.start_value == b,
        holds(j, "endValue"@, v) ==> x.end_value == b,
        holds(j, "samples"@, JsonView::Array(list)) ==> x.samples.len() == list.len() && (0 <= k < list.len()
            ==> indices_json(list[k]) == Some(x.samples[k])),
        holds(j, "weights"@, JsonView::Array(list)) ==> x.weights.len() == list.len() && (0 <= k < list.len() && is_double(
            list[k],
            b,
        ) ==> x.weights[k] == b),
        lacks(j, "weights"@) ==> x.weights.len() == 0,
{
    law_member_found(j, "type"@, JsonView::Text(s), 0);
    law_member_found(j, "unit"@, JsonView::Text(s), 2);
    law_member_found(j, "startValue"@, v, 3);
    law_member_found(j, "endValue"@, v, 4);
    law_member_found(j, "samples"@, JsonView::Array(list), 5);
    law_member_found(j, "weights"@, JsonView::Array(list), 6);
    if holds(j, "samples"@, JsonView::Array(list)) && 0 <= k < list.len() {
        assert(indices_json(list[k]) is Some);
    }
}

/// A symbol has its address, its size, its name and its calls, and each of them its function.
pub proof fn law_symbol_read(
    j: JsonView,
    x: SymEntryView,
    c: JsonView,
    y: SymFrame,
    v: JsonView,
    n: i64,
    w: JsonView,
    m: u64,
    list: Seq<JsonView>,
    k: int,
)
    requires
        sym_entry_json(j) == Some(x),
        sym_frame_json(c) == Some(y),
        is_integer(v, n),
        is_natural(w, m),
    ensures
        holds(j, "rva"@, w) ==> x.rva == m,
        holds(j, "size"@, w) ==> x.size == m,
        holds(j, "symbol"@, v) ==> x.symbol == n,
        holds(j, "frames"@, JsonView::Array(list)) ==> x.frames.len() == list.len() && (0 <= k < list.len()
            ==> sym_frame_json(list[k]) == Some(x.frames[k])),
        lacks(j, "frames"@) ==> x.frames.len() == 0,
        holds(c, "function"@, v) ==> y.function == n,
        holds(c, "file"@, v) ==> y.file == Some(n),
        lacks(c, "file"@) ==> y.file is None,
        holds(c, "line"@, v) ==> y.line == Some(n),
        lacks(c, "line"@) ==> y.line is None,
{
    law_member_found(j, "rva"@, w, 0);
    law_member_found(j, "size"@, w, 1);
    law_member_found(j, "symbol"@, v, 2);
    law_member_found(j, "frames"@, JsonView::Array(list), 3);
    law_member_found(c, "function"@, v, 0);
    law_member_found(c, "file"@, v, 1);
    law_member_found(c, "line"@, v, 2);
    if holds(j, "frames"@, JsonView::Array(list)) && 0 <= k < list.len() {
        assert(sym_frame_json(list[k]) is Some);
    }
}

/// The tables of a thread have what their members list, in the same order: the functions,
/// addresses and lines of frames, the names and files of functions, the prefixes and frames of
/// stacks.
pub proof fn law_thread_tables_read(j: JsonView, t: Thread, table: JsonView, list: Seq<JsonView>, k: int, n: i64)
    requires
        thread_matches(j, t),
        0 <= k < list.len(),
        is_integer(list[k], n),
    ensures
        holds(j, "frameTable"@, table) && holds(table, "func"@, JsonView::Array(list)) ==> t.frame_table.func@.len()
            == list.len() && t.frame_table.func@[k] == n,
        holds(j, "frameTable"@, table) && holds(table, "address"@, JsonView::Array(list))
            ==> t.frame_table.address@.len() == list.len() && t.frame_table.address@[k] == n,
        holds(j, "frameTable"@, table) && holds(table, "line"@, JsonView::Array(list)) ==> t.frame_table.line@.len()
            == list.len() && t.frame_table.line@[k] == Some(n),
        holds(j, "funcTable"@, table) && holds(table, "name"@, JsonView::Array(list)) ==> t.func_table.name@.len()
            == list.len() && t.func_table.name@[k] == n,
        holds(j, "funcTable"@, table) && holds(table, "fileName"@, JsonView::Array(list))
            ==> t.func_table.file_name@.len() == list.len() && t.func_table.file_name@[k] == Some(n),
        holds(j, "funcTable"@, table) && holds(table, "resource"@, JsonView::Array(list))
            ==> t.func_table.resource@.len() == list.len() && t.func_table.resource@[k] == n,
        holds(j, "stackTable"@, table) && holds(table, "prefix"@, JsonView::Array(list))
            ==> t.stack_table.prefix@.len() == list.len() && t.stack_table.prefix@[k] == Some(n),
        holds(j, "stackTable"@, table) && holds(table, "frame"@, JsonView::Array(list)) ==> t.stack_table.frame@.len()
            == list.len() && t.stack_table.frame@[k] == n,
        holds(j, "samples"@, table) && holds(table, "stack"@, JsonView::Array(list)) ==> t.samples.stack@.len()
            == list.len() && t.samples.stack@[k] == Some(n),
{
    let a = JsonView::Array(list);
    law_member_found(j, "frameTable"@, table, 0);
    law_member_found(j, "funcTable"@, table, 1);
    law_member_found(j, "stackTable"@, table, 2);
    law_member_found(j, "samples"@, table, 3);
    law_member_found(table, "func"@, a, 1);
    law_member_found(table, "address"@, a, 2);
    law_member_found(table, "line"@, a, 3);
    law_member_found(table, "name"@, a, 1);
    law_member_found(table, "fileName"@, a, 2);
    law_member_found(table, "resource"@, a, 3);
    law_member_found(table, "prefix"@, a, 1);
    law_member_found(table, "frame"@, a, 2);
    law_member_found(table, "stack"@, a, 1);
}

} // verus!

//! Reading Firefox Profiler profiles, and samply's symbol files, out of JSON.
use vstd::prelude::*;
use crate::firefox_model::{
    one_ms, zero_ms, FirefoxProfile, FrameTable, FuncTable, Lib, Meta, Millis, ResourceTable,
    Samples, StackTable, Thread,
};
use crate::json::{as_bits, as_uint, JsonView};
use crate::json_read::{
    as_text, field, ints, ints_or_none, is_record, opt_int, opt_tree, read_field, read_ints,
    read_ints_or_none, read_opt_int, read_text, read_text_or, record, text_or,
};
use crate::json_text::{bytes_json, json_values, read_bytes, Json};
use crate::proto::texts;
use crate::samply::{
    lib_views, sort_libs, sorted_libs, symbol_views, LibSyms, LibSymsView, SamplySyms,
    SamplySymsView, SymEntry, SymEntryView, SymFrame,
};
use crate::speedscope_json::{as_index, read_index, read_text_field, text_field, weights_json, read_weights};
use crate::v8_json::{int_field, read_int_field, ReadError};

verus! {

/// An index that must be there.
pub open spec fn index_field(f: Option<JsonView>) -> Option<usize> {
    match f {
        Some(j) => as_index(j),
        None => None,
    }
}

/// An unsigned integer that must be there.
pub open spec fn uint_field(f: Option<JsonView>) -> Option<u64> {
    match f {
        Some(j) => as_uint(j),
        None => None,
    }
}

/// A list of integers that must be there.
pub open spec fn ints_field(f: Option<JsonView>) -> Option<Seq<i64>> {
    match f {
        Some(j) => ints(j),
        None => None,
    }
}

/// A list of integers some of which may be null.
pub open spec fn opt_ints(j: JsonView) -> Option<Seq<Option<i64>>> {
    match j {
        JsonView::Array(a) => if forall|i: int| 0 <= i < a.len() ==> opt_int(Some(#[trigger] a[i])) is Some {
            Some(Seq::new(a.len(), |i: int| opt_int(Some(a[i])).unwrap()))
        } else {
            None
        },
        _ => None,
    }
}

/// A list of integers some of which may be null, which must be there.
pub open spec fn opt_ints_field(f: Option<JsonView>) -> Option<Seq<Option<i64>>> {
    match f {
        Some(j) => opt_ints(j),
        None => None,
    }
}

/// A list of integers some of which may be null, empty where the field is missing.
pub open spec fn opt_ints_or_none(f: Option<JsonView>) -> Option<Seq<Option<i64>>> {
    match f {
        Some(j) => opt_ints(j),
        None => Some(Seq::empty()),
    }
}

/// A list of strings that must be there.
pub open spec fn strings_field(f: Option<JsonView>) -> Option<Seq<Seq<char>>> {
    match f {
        Some(JsonView::Array(a)) => if forall|i: int| 0 <= i < a.len() ==> as_text(#[trigger] a[i]) is Some {
            Some(Seq::new(a.len(), |i: int| as_text(a[i]).unwrap()))
        } else {
            None
        },
        _ => None,
    }
}

/// A time in milliseconds.
pub open spec fn millis(j: JsonView) -> Option<Millis> {
    match as_bits(j) {
        Some(b) => Some(Millis { bits: b }),
        None => None,
    }
}

/// A time in milliseconds, `default` where the field is missing.
pub open spec fn millis_or(f: Option<JsonView>, default: Millis) -> Option<Millis> {
    match f {
        Some(j) => millis(j),
        None => Some(default),
    }
}

/// A list of times, empty where the field is missing.
pub open spec fn times_json(f: Option<JsonView>) -> Option<Seq<Millis>> {
    match f {
        None => Some(Seq::empty()),
        Some(JsonView::Array(a)) => if forall|i: int| 0 <= i < a.len() ==> millis(#[trigger] a[i]) is Some {
            Some(Seq::new(a.len(), |i: int| millis(a[i]).unwrap()))
        } else {
            None
        },
        _ => None,
    }
}

/// Profile-wide metadata.
pub open spec fn meta_json(f: Option<JsonView>) -> Option<Meta> {
    match f {
        None => Some(Meta { interval: one_ms(), start_time: zero_ms() }),
        Some(j) => {
            let interval = millis_or(field(j, "interval"@, 0), one_ms());
            let start = millis_or(field(j, "startTime"@, 1), zero_ms());
            if is_record(j, 2) && interval is Some && start is Some {
                Some(Meta { interval: interval.unwrap(), start_time: start.unwrap() })
            } else {
                None
            }
        },
    }
}

/// Whether the record is that of a module.
pub open spec fn lib_matches(j: JsonView, l: Lib) -> bool {
    &&& is_record(j, 2)
    &&& text_or(field(j, "name"@, 0), Seq::empty()) == Some(l.name@)
    &&& text_or(field(j, "debugName"@, 1), Seq::empty()) == Some(l.debug_name@)
}

/// Whether a record is one of a module.
pub open spec fn is_lib(j: JsonView) -> bool {
    &&& is_record(j, 2)
    &&& text_or(field(j, "name"@, 0), Seq::empty()) is Some
    &&& text_or(field(j, "debugName"@, 1), Seq::empty()) is Some
}

/// Whether the record is that of a frame table.
pub open spec fn frames_match(f: Option<JsonView>, t: FrameTable) -> bool {
    f matches Some(j) && is_record(j, 4) && index_field(field(j, "length"@, 0)) == Some(t.length) && ints_field(
        field(j, "func"@, 1),
    ) == Some(t.func@) && ints_or_none(field(j, "address"@, 2)) == Some(t.address@) && opt_ints_or_none(
        field(j, "line"@, 3),
    ) == Some(t.line@)
}

/// Whether a record is one of a frame table.
pub open spec fn is_frames(f: Option<JsonView>) -> bool {
    f matches Some(j) && is_record(j, 4) && index_field(field(j, "length"@, 0)) is Some && ints_field(
        field(j, "func"@, 1),
    ) is Some && ints_or_none(field(j, "address"@, 2)) is Some && opt_ints_or_none(field(j, "line"@, 3)) is Some
}

/// Whether the record is that of a function table.
pub open spec fn funcs_match(f: Option<JsonView>, t: FuncTable) -> bool {
    f matches Some(j) && is_record(j, 4) && index_field(field(j, "length"@, 0)) == Some(t.length) && ints_field(
        field(j, "name"@, 1),
    ) == Some(t.name@) && opt_ints_or_none(field(j, "fileName"@, 2)) == Some(t.file_name@) && ints_or_none(
        field(j, "resource"@, 3),
    ) == Some(t.resource@)
}

/// Whether a record is one of a function table.
pub open spec fn is_funcs(f: Option<JsonView>) -> bool {
    f matches Some(j) && is_record(j, 4) && index_field(field(j, "length"@, 0)) is Some && ints_field(
        field(j, "name"@, 1),
    ) is Some && opt_ints_or_none(field(j, "fileName"@, 2)) is Some && ints_or_none(field(j, "resource"@, 3)) is Some
}

/// Whether the record is that of a stack table.
pub open spec fn stacks_match(f: Option<JsonView>, t: StackTable) -> bool {
    f matches Some(j) && is_record(j, 3) && index_field(field(j, "length"@, 0)) == Some(t.length)
        && opt_ints_field(field(j, "prefix"@, 1)) == Some(t.prefix@) && ints_field(field(j, "frame"@, 2)) == Some(
        t.frame@,
    )
}

/// Whether a record is one of a stack table.
pub open spec fn is_stacks(f: Option<JsonView>) -> bool {
    f matches Some(j) && is_record(j, 3) && index_field(field(j, "length"@, 0)) is Some && opt_ints_field(
        field(j, "prefix"@, 1),
    ) is Some && ints_field(field(j, "frame"@, 2)) is Some
}

/// Whether the record is that of a sample table.
pub open spec fn samples_match(f: Option<JsonView>, t: Samples) -> bool {
    f matches Some(j) && is_record(j, 4) && index_field(field(j, "length"@, 0)) == Some(t.length)
        && opt_ints_field(field(j, "stack"@, 1)) == Some(t.stack@) && times_json(field(j, "timeDeltas"@, 2)) == Some(
        t.time_deltas@,
    ) && weights_json(field(j, "weight"@, 3)) == Some(t.weight@)
}

/// Whether a record is one of a sample table.
pub open spec fn is_samples(f: Option<JsonView>) -> bool {
    f matches Some(j) && is_record(j, 4) && index_field(field(j, "length"@, 0)) is Some && opt_ints_field(
        field(j, "stack"@, 1),
    ) is Some && times_json(field(j, "timeDeltas"@, 2)) is Some && weights_json(field(j, "weight"@, 3)) is Some
}

/// Whether the record is that of a resource table, which may be missing or null.
pub open spec fn resources_match(f: Option<JsonView>, t: Option<ResourceTable>) -> bool {
    match f {
        None => t is None,
        Some(JsonView::Null) => t is None,
        Some(j) => t matches Some(r) && is_record(j, 2) && index_field(field(j, "length"@, 0)) == Some(r.length)
            && ints_or_none(field(j, "lib"@, 1)) == Some(r.lib@),
    }
}

/// Whether a record is one of a resource table, or missing or null.
pub open spec fn is_resources(f: Option<JsonView>) -> bool {
    match f {
        None => true,
        Some(JsonView::Null) => true,
        Some(j) => is_record(j, 2) && index_field(field(j, "length"@, 0)) is Some && ints_or_none(
            field(j, "lib"@, 1),
        ) is Some,
    }
}

/// Whether the record is that of a thread.
pub open spec fn thread_matches(j: JsonView, t: Thread) -> bool {
    &&& is_record(j, 6)
    &&& frames_match(field(j, "frameTable"@, 0), t.frame_table)
    &&& funcs_match(field(j, "funcTable"@, 1), t.func_table)
    &&& stacks_match(field(j, "stackTable"@, 2), t.stack_table)
    &&& samples_match(field(j, "samples"@, 3), t.samples)
    &&& strings_field(field(j, "stringArray"@, 4)) == Some(texts(t.string_array@))
    &&& resources_match(field(j, "resourceTable"@, 5), t.resource_table)
}

/// Whether a record is one of a thread.
pub open spec fn is_thread(j: JsonView) -> bool {
    &&& is_record(j, 6)
    &&& is_frames(field(j, "frameTable"@, 0))
    &&& is_funcs(field(j, "funcTable"@, 1))
    &&& is_stacks(field(j, "stackTable"@, 2))
    &&& is_samples(field(j, "samples"@, 3))
    &&& strings_field(field(j, "stringArray"@, 4)) is Some
    &&& is_resources(field(j, "resourceTable"@, 5))
}

/// Whether the list is that of the modules. It may be missing.
pub open spec fn libs_match(f: Option<JsonView>, libs: Seq<Lib>) -> bool {
    match f {
        None => libs.len() == 0,
        Some(JsonView::Array(a)) => a.len() == libs.len() && forall|i: int|
            0 <= i < a.len() ==> lib_matches(#[trigger] a[i], libs[i]),
        _ => false,
    }
}

/// Whether a list is one of modules. It may be missing.
pub open spec fn is_libs(f: Option<JsonView>) -> bool {
    match f {
        None => true,
        Some(JsonView::Array(a)) => forall|i: int| 0 <= i < a.len() ==> is_lib(#[trigger] a[i]),
        _ => false,
    }
}

/// Whether the list is that of the threads.
pub open spec fn threads_match(f: Option<JsonView>, threads: Seq<Thread>) -> bool {
    match f {
        Some(JsonView::Array(a)) => a.len() == threads.len() && forall|i: int|
            0 <= i < a.len() ==> thread_matches(#[trigger] a[i], threads[i]),
        _ => false,
    }
}

/// Whether a list is one of threads.
pub open spec fn is_threads(f: Option<JsonView>) -> bool {
    match f {
        Some(JsonView::Array(a)) => forall|i: int| 0 <= i < a.len() ==> is_thread(#[trigger] a[i]),
        _ => false,
    }
}

/// Whether the record is that of a profile.
pub open spec fn profile_matches(j: JsonView, p: FirefoxProfile) -> bool {
    &&& is_record(j, 3)
    &&& libs_match(field(j, "libs"@, 0), p.libs@)
    &&& threads_match(field(j, "threads"@, 1), p.threads@)
    &&& meta_json(field(j, "meta"@, 2)) == Some(p.meta)
}

/// Whether a record is one of a profile.
pub open spec fn is_profile(j: JsonView) -> bool {
    &&& is_record(j, 3)
    &&& is_libs(field(j, "libs"@, 0))
    &&& is_threads(field(j, "threads"@, 1))
    &&& meta_json(field(j, "meta"@, 2)) is Some
}

fn read_index_field(f: Option<&Json>) -> (r: Option<usize>)
    ensures
        r == index_field(opt_tree(f)),
{
    match f {
        Some(v) => read_index(v),
        None => None,
    }
}

fn read_uint_field(f: Option<&Json>) -> (r: Option<u64>)
    ensures
        r == uint_field(opt_tree(f)),
{
    match f {
        Some(v) => v.as_u64(),
        None => None,
    }
}

fn read_ints_field(f: Option<&Json>) -> (r: Option<Vec<i64>>)
    ensures
        match r {
            Some(s) => ints_field(opt_tree(f)) == Some(s@),
            None => ints_field(opt_tree(f)) is None,
        },
{
    match f {
        Some(v) => read_ints(v),
        None => None,
    }
}

fn read_opt_ints(v: &Json) -> (r: Option<Vec<Option<i64>>>)
    ensures
        match r {
            Some(s) => opt_ints(v.value()) == Some(s@),
            None => opt_ints(v.value()) is None,
        },
{
    let a = match v.as_array() {
        Some(a) => a,
        None => {
            return None;
        },
    };
    let ghost t = json_values(a@);
    let mut out: Vec<Option<i64>> = Vec::new();
    for i in 0..a.len()
        invariant
            t == json_values(a@),
            v.value() == JsonView::Array(t),
            out@.len() == i,
            forall|k: int| 0 <= k < i ==> opt_int(Some(#[trigger] t[k])) == Some(out@[k]),
    {
        assert(opt_tree(Some(&a@[i as int])) == Some(t[i as int]));
        match read_opt_int(Some(&a[i])) {
            Some(n) => {
                out.push(n);
            },
            None => {
                assert(opt_int(Some(t[i as int])) is None);
                return None;
            },
        }
    }
    assert(out@ =~= Seq::new(t.len(), |i: int| opt_int(Some(t[i])).unwrap()));
    Some(out)
}

fn read_opt_ints_field(f: Option<&Json>) -> (r: Option<Vec<Option<i64>>>)
    ensures
        match r {
            Some(s) => opt_ints_field(opt_tree(f)) == Some(s@),
            None => opt_ints_field(opt_tree(f)) is None,
        },
{
    match f {
        Some(v) => read_opt_ints(v),
        None => None,
    }
}

fn read_opt_ints_or_none(f: Option<&Json>) -> (r: Option<Vec<Option<i64>>>)
    ensures
        match r {
            Some(s) => opt_ints_or_none(opt_tree(f)) == Some(s@),
            None => opt_ints_or_none(opt_tree(f)) is None,
        },
{
    match f {
        Some(v) => read_opt_ints(v),
        None => Some(Vec::new()),
    }
}

fn read_strings_field(f: Option<&Json>) -> (r: Option<Vec<String>>)
    ensures
        match r {
            Some(s) => strings_field(opt_tree(f)) == Some(texts(s@)),
            None => strings_field(opt_tree(f)) is None,
        },
{
    let v = match f {
        Some(v) => v,
        None => {
            return None;
        },
    };
    let a = match v.as_array() {
        Some(a) => a,
        None => {
            return None;
        },
    };
    let ghost t = json_values(a@);
    let mut out: Vec<String> = Vec::new();
    for i in 0..a.len()
        invariant
            t == json_values(a@),
            opt_tree(f) == Some(JsonView::Array(t)),
            out@.len() == i,
            forall|k: int| 0 <= k < i ==> as_text(#[trigger] t[k]) == Some(out@[k]@),
    {
        match read_text(&a[i]) {
            Some(n) => {
                out.push(n);
            },
            None => {
                assert(as_text(t[i as int]) is None);
                return None;
            },
        }
    }
    assert(texts(out@) =~= Seq::new(t.len(), |i: int| as_text(t[i]).unwrap()));
    Some(out)
}

fn read_millis(v: &Json) -> (r: Option<Millis>)
    ensures
        r == millis(v.value()),
{
    match v.number_bits() {
        Some(bits) => Some(Millis { bits }),
        None => None,
    }
}

fn read_times(f: Option<&Json>) -> (r: Option<Vec<Millis>>)
    ensures
        match r {
            Some(s) => times_json(opt_tree(f)) == Some(s@),
            None => times_json(opt_tree(f)) is None,
        },
{
    let v = match f {
        Some(v) => v,
        None => {
            return Some(Vec::new());
        },
    };
    let a = match v.as_array() {
        Some(a) => a,
        None => {
            return None;
        },
    };
    let ghost t = json_values(a@);
    let mut out: Vec<Millis> = Vec::new();
    for i in 0..a.len()
        invariant
            t == json_values(a@),
            opt_tree(f) == Some(JsonView::Array(t)),
            out@.len() == i,
            forall|k: int| 0 <= k < i ==> millis(#[trigger] t[k]) == Some(out@[k]),
    {
        match read_millis(&a[i]) {
            Some(n) => {
                out.push(n);
            },
            None => {
                assert(millis(t[i as int]) is None);
                return None;
            },
        }
    }
    assert(out@ =~= Seq::new(t.len(), |i: int| millis(t[i]).unwrap()));
    Some(out)
}

fn read_millis_or(f: Option<&Json>, default: Millis) -> (r: Option<Millis>)
    ensures
        r == millis_or(opt_tree(f), default),
{
    match f {
        Some(v) => read_millis(v),
        None => Some(default),
    }
}

fn read_meta(f: Option<&Json>) -> (r: Option<Meta>)
    ensures
        r == meta_json(opt_tree(f)),
{
    let default: Meta = Default::default();
    let v = match f {
        Some(v) => v,
        None => {
            return Some(default);
        },
    };
    if !record(v, 2) {
        return None;
    }
    let interval = read_millis_or(read_field(v, "interval", 0), default.interval);
    let start = read_millis_or(read_field(v, "startTime", 1), default.start_time);
    match (interval, start) {
        (Some(interval), Some(start_time)) => Some(Meta { interval, start_time }),
        _ => None,
    }
}

fn read_lib(v: &Json) -> (r: Option<Lib>)
    ensures
        match r {
            Some(l) => is_lib(v.value()) && lib_matches(v.value(), l),
            None => !is_lib(v.value()),
        },
{
    proof {
        reveal_strlit("");
        assert(""@ =~= Seq::<char>::empty());
    }
    if !record(v, 2) {
        return None;
    }
    let name = read_text_or(read_field(v, "name", 0), "");
    let debug_name = read_text_or(read_field(v, "debugName", 1), "");
    match (name, debug_name) {
        (Some(name), Some(debug_name)) => Some(Lib { name, debug_name }),
        _ => None,
    }
}

fn read_libs(f: Option<&Json>) -> (r: Option<Vec<Lib>>)
    ensures
        match r {
            Some(l) => is_libs(opt_tree(f)) && libs_match(opt_tree(f), l@),
            None => !is_libs(opt_tree(f)),
        },
{
    let v = match f {
        Some(v) => v,
        None => {
            return Some(Vec::new());
        },
    };
    let a = match v.as_array() {
        Some(a) => a,
        None => {
            return None;
        },
    };
    let ghost t = json_values(a@);
    let mut out: Vec<Lib> = Vec::new();
    for i in 0..a.len()
        invariant
            t == json_values(a@),
            opt_tree(f) == Some(JsonView::Array(t)),
            out@.len() == i,
            forall|k: int| 0 <= k < i ==> is_lib(#[trigger] t[k]) && lib_matches(t[k], out@[k]),
    {
        match read_lib(&a[i]) {
            Some(n) => {
                out.push(n);
            },
            None => {
                assert(!is_lib(t[i as int]));
                assert(opt_tree(f)->Some_0->Array_0[i as int] == t[i as int]);
                return None;
            },
        }
    }
    Some(out)
}

fn read_frame_table(f: Option<&Json>) -> (r: Option<FrameTable>)
    ensures
        match r {
            Some(t) => is_frames(opt_tree(f)) && frames_match(opt_tree(f), t),
            None => !is_frames(opt_tree(f)),
        },
{
    let v = match f {
        Some(v) => v,
        None => {
            return None;
        },
    };
    if !record(v, 4) {
        return None;
    }
    let length = read_index_field(read_field(v, "length", 0));
    let func = read_ints_field(read_field(v, "func", 1));
    let address = read_ints_or_none(read_field(v, "address", 2));
    let line = read_opt_ints_or_none(read_field(v, "line", 3));
    match (length, func, address, line) {
        (Some(length), Some(func), Some(address), Some(line)) => Some(
            FrameTable { length, func, address, line },
        ),
        _ => None,
    }
}

fn read_func_table(f: Option<&Json>) -> (r: Option<FuncTable>)
    ensures
        match r {
            Some(t) => is_funcs(opt_tree(f)) && funcs_match(opt_tree(f), t),
            None => !is_funcs(opt_tree(f)),
        },
{
    let v = match f {
        Some(v) => v,
        None => {
            return None;
        },
    };
    if !record(v, 4) {
        return None;
    }
    let length = read_index_field(read_field(v, "length", 0));
    let name = read_ints_field(read_field(v, "name", 1));
    let file_name = read_opt_ints_or_none(read_field(v, "fileName", 2));
    let resource = read_ints_or_none(read_field(v, "resource", 3));
    match (length, name, file_name, resource) {
        (Some(length), Some(name), Some(file_name), Some(resource)) => Some(
            FuncTable { length, name, file_name, resource },
        ),
        _ => None,
    }
}

fn read_stack_table(f: Option<&Json>) -> (r: Option<StackTable>)
    ensures
        match r {
            Some(t) => is_stacks(opt_tree(f)) && stacks_match(opt_tree(f), t),
            None => !is_stacks(opt_tree(f)),
        },
{
    let v = match f {
        Some(v) => v,
        None => {
            return None;
        },
    };
    if !record(v, 3) {
        return None;
    }
    let length = read_index_field(read_field(v, "length", 0));
    let prefix = read_opt_ints_field(read_field(v, "prefix", 1));
    let frame = read_ints_field(read_field(v, "frame", 2));
    match (length, prefix, frame) {
        (Some(length), Some(prefix), Some(frame)) => Some(StackTable { length, prefix, frame }),
        _ => None,
    }
}

fn read_samples(f: Option<&Json>) -> (r: Option<Samples>)
    ensures
        match r {
            Some(t) => is_samples(opt_tree(f)) && samples_match(opt_tree(f), t),
            None => !is_samples(opt_tree(f)),
        },
{
    let v = match f {
        Some(v) => v,
        None => {
            return None;
        },
    };
    if !record(v, 4) {
        return None;
    }
    let length = read_index_field(read_field(v, "length", 0));
    let stack = read_opt_ints_field(read_field(v, "stack", 1));
    let time_deltas = read_times(read_field(v, "timeDeltas", 2));
    let weight = read_weights(read_field(v, "weight", 3));
    match (length, stack, time_deltas, weight) {
        (Some(length), Some(stack), Some(time_deltas), Some(weight)) => Some(
            Samples { length, stack, time_deltas, weight },
        ),
        _ => None,
    }
}

/// The outer `None` stands for a malformed table, the inner one for a missing one.
fn read_resources(f: Option<&Json>) -> (r: Option<Option<ResourceTable>>)
    ensures
        match r {
            Some(t) => is_resources(opt_tree(f)) && resources_match(opt_tree(f), t),
            None => !is_resources(opt_tree(f)),
        },
{
    let v = match f {
        Some(v) => v,
        None => {
            return Some(None);
        },
    };
    if v.is_null() {
        return Some(None);
    }
    if !record(v, 2) {
        return None;
    }
    let length = read_index_field(read_field(v, "length", 0));
    let lib = read_ints_or_none(read_field(v, "lib", 1));
    match (length, lib) {
        (Some(length), Some(lib)) => Some(Some(ResourceTable { length, lib })),
        _ => None,
    }
}

fn read_thread(v: &Json) -> (r: Option<Thread>)
    ensures
        match r {
            Some(t) => is_thread(v.value()) && thread_matches(v.value(), t),
            None => !is_thread(v.value()),
        },
{
    if !record(v, 6) {
        return None;
    }
    let frame_table = match read_frame_table(read_field(v, "frameTable", 0)) {
        Some(x) => x,
        None => {
            return None;
        },
    };
    let func_table = match read_func_table(read_field(v, "funcTable", 1)) {
        Some(x) => x,
        None => {
            return None;
        },
    };
    let stack_table = match read_stack_table(read_field(v, "stackTable", 2)) {
        Some(x) => x,
        None => {
            return None;
        },
    };
    let samples = match read_samples(read_field(v, "samples", 3)) {
        Some(x) => x,
        None => {
            return None;
        },
    };
    let string_array = match read_strings_field(read_field(v, "stringArray", 4)) {
        Some(x) => x,
        None => {
            return None;
        },
    };
    let resource_table = match read_resources(read_field(v, "resourceTable", 5)) {
        Some(x) => x,
        None => {
            return None;
        },
    };
    Some(Thread { frame_table, func_table, stack_table, samples, string_array, resource_table })
}

fn read_threads(f: Option<&Json>) -> (r: Option<Vec<Thread>>)
    ensures
        match r {
            Some(l) => is_threads(opt_tree(f)) && threads_match(opt_tree(f), l@),
            None => !is_threads(opt_tree(f)),
        },
{
    let v = match f {
        Some(v) => v,
        None => {
            return None;
        },
    };
    let a = match v.as_array() {
        Some(a) => a,
        None => {
            return None;
        },
    };
    let ghost t = json_values(a@);
    let mut out: Vec<Thread> = Vec::new();
    for i in 0..a.len()
        invariant
            t == json_values(a@),
            opt_tree(f) == Some(JsonView::Array(t)),
            out@.len() == i,
            forall|k: int| 0 <= k < i ==> is_thread(#[trigger] t[k]) && thread_matches(t[k], out@[k]),
    {
        match read_thread(&a[i]) {
            Some(n) => {
                out.push(n);
            },
            None => {
                assert(!is_thread(t[i as int]));
                assert(opt_tree(f)->Some_0->Array_0[i as int] == t[i as int]);
                return None;
            },
        }
    }
    Some(out)
}

impl FirefoxProfile {
    /// Reads a profile.
    pub fn from_json(bytes: &[u8]) -> (r: Result<FirefoxProfile, ReadError>)
        ensures
            match bytes_json(bytes@) {
                None => r == Err::<FirefoxProfile, ReadError>(ReadError::Json),
                Some(j) => match r {
                    Ok(p) => is_profile(j) && profile_matches(j, p),
                    Err(e) => e == ReadError::Shape && !is_profile(j),
                },
            },
    {
        let v = match read_bytes(bytes) {
            Some(v) => v,
            None => {
                return Err(ReadError::Json);
            },
        };
        if !record(&v, 3) {
            return Err(ReadError::Shape);
        }
        let libs = match read_libs(read_field(&v, "libs", 0)) {
            Some(x) => x,
            None => {
                return Err(ReadError::Shape);
            },
        };
        let threads = match read_threads(read_field(&v, "threads", 1)) {
            Some(x) => x,
            None => {
                return Err(ReadError::Shape);
            },
        };
        match read_meta(read_field(&v, "meta", 2)) {
            Some(meta) => Ok(FirefoxProfile { libs, threads, meta }),
            None => Err(ReadError::Shape),
        }
    }
}

/// An inlined call.
pub open spec fn sym_frame_json(j: JsonView) -> Option<SymFrame> {
    let function = int_field(field(j, "function"@, 0));
    let file = opt_int(field(j, "file"@, 1));
    let line = opt_int(field(j, "line"@, 2));
    if is_record(j, 3) && function is Some && file is Some && line is Some {
        Some(SymFrame { function: function.unwrap(), file: file.unwrap(), line: line.unwrap() })
    } else {
        None
    }
}

/// An inline chain, empty where the field is missing.
pub open spec fn sym_frames_json(f: Option<JsonView>) -> Option<Seq<SymFrame>> {
    match f {
        None => Some(Seq::empty()),
        Some(JsonView::Array(a)) => if forall|i: int| 0 <= i < a.len() ==> sym_frame_json(#[trigger] a[i]) is Some {
            Some(Seq::new(a.len(), |i: int| sym_frame_json(a[i]).unwrap()))
        } else {
            None
        },
        _ => None,
    }
}

/// A symbol.
pub open spec fn sym_entry_json(j: JsonView) -> Option<SymEntryView> {
    let rva = uint_field(field(j, "rva"@, 0));
    let size = uint_field(field(j, "size"@, 1));
    let symbol = int_field(field(j, "symbol"@, 2));
    let frames = sym_frames_json(field(j, "frames"@, 3));
    if is_record(j, 4) && rva is Some && size is Some && symbol is Some && frames is Some {
        Some(
            SymEntryView {
                rva: rva.unwrap(),
                size: size.unwrap(),
                symbol: symbol.unwrap(),
                frames: frames.unwrap(),
            },
        )
    } else {
        None
    }
}

/// The symbols of a module.
pub open spec fn sym_table_json(f: Option<JsonView>) -> Option<Seq<SymEntryView>> {
    match f {
        Some(JsonView::Array(a)) => if forall|i: int| 0 <= i < a.len() ==> sym_entry_json(#[trigger] a[i]) is Some {
            Some(Seq::new(a.len(), |i: int| sym_entry_json(a[i]).unwrap()))
        } else {
            None
        },
        _ => None,
    }
}

/// A module with its symbols.
pub open spec fn lib_syms_json(j: JsonView) -> Option<LibSymsView> {
    let name = text_field(field(j, "debug_name"@, 0));
    let table = sym_table_json(field(j, "symbol_table"@, 1));
    if is_record(j, 2) && name is Some && table is Some {
        Some(LibSymsView { debug_name: name.unwrap(), symbol_table: table.unwrap() })
    } else {
        None
    }
}

/// The modules of a symbol file.
pub open spec fn all_syms_json(f: Option<JsonView>) -> Option<Seq<LibSymsView>> {
    match f {
        Some(JsonView::Array(a)) => if forall|i: int| 0 <= i < a.len() ==> lib_syms_json(#[trigger] a[i]) is Some {
            Some(Seq::new(a.len(), |i: int| lib_syms_json(a[i]).unwrap()))
        } else {
            None
        },
        _ => None,
    }
}

/// A symbol file.
pub open spec fn samply_json(j: JsonView) -> Option<SamplySymsView> {
    let data = all_syms_json(field(j, "data"@, 0));
    let strings = strings_field(field(j, "string_table"@, 1));
    if is_record(j, 2) && data is Some && strings is Some {
        Some(SamplySymsView { data: data.unwrap(), string_table: strings.unwrap() })
    } else {
        None
    }
}

fn read_sym_frame(v: &Json) -> (r: Option<SymFrame>)
    ensures
        r == sym_frame_json(v.value()),
{
    if !record(v, 3) {
        return None;
    }
    let function = read_int_field(read_field(v, "function", 0));
    let file = read_opt_int(read_field(v, "file", 1));
    let line = read_opt_int(read_field(v, "line", 2));
    match (function, file, line) {
        (Some(function), Some(file), Some(line)) => Some(SymFrame { function, file, line }),
        _ => None,
    }
}

fn read_sym_frames(f: Option<&Json>) -> (r: Option<Vec<SymFrame>>)
    ensures
        match r {
            Some(s) => sym_frames_json(opt_tree(f)) == Some(s@),
            None => sym_frames_json(opt_tree(f)) is None,
        },
{
    let v = match f {
        Some(v) => v,
        None => {
            return Some(Vec::new());
        },
    };
    let a = match v.as_array() {
        Some(a) => a,
        None => {
            return None;
        },
    };
    let ghost t = json_values(a@);
    let mut out: Vec<SymFrame> = Vec::new();
    for i in 0..a.len()
        invariant
            t == json_values(a@),
            opt_tree(f) == Some(JsonView::Array(t)),
            out@.len() == i,
            forall|k: int| 0 <= k < i ==> sym_frame_json(#[trigger] t[k]) == Some(out@[k]),
    {
        match read_sym_frame(&a[i]) {
            Some(n) => {
                out.push(n);
            },
            None => {
                assert(sym_frame_json(t[i as int]) is None);
                return None;
            },
        }
    }
    assert(out@ =~= Seq::new(t.len(), |i: int| sym_frame_json(t[i]).unwrap()));
    Some(out)
}

fn read_sym_entry(v: &Json) -> (r: Option<SymEntry>)
    ensures
        match r {
            Some(e) => sym_entry_json(v.value()) == Some(e@),
            None => sym_entry_json(v.value()) is None,
        },
{
    if !record(v, 4) {
        return None;
    }
    let rva = read_uint_field(read_field(v, "rva", 0));
    let size = read_uint_field(read_field(v, "size", 1));
    let symbol = read_int_field(read_field(v, "symbol", 2));
    let frames = read_sym_frames(read_field(v, "frames", 3));
    match (rva, size, symbol, frames) {
        (Some(rva), Some(size), Some(symbol), Some(frames)) => Some(SymEntry { rva, size, symbol, frames }),
        _ => None,
    }
}

fn read_sym_table(f: Option<&Json>) -> (r: Option<Vec<SymEntry>>)
    ensures
        match r {
            Some(s) => sym_table_json(opt_tree(f)) == Some(symbol_views(s@)),
            None => sym_table_json(opt_tree(f)) is None,
        },
{
    let v = match f {
        Some(v) => v,
        None => {
            return None;
        },
    };
    let a = match v.as_array() {
        Some(a) => a,
        None => {
            return None;
        },
    };
    let ghost t = json_values(a@);
    let mut out: Vec<SymEntry> = Vec::new();
    for i in 0..a.len()
        invariant
            t == json_values(a@),
            opt_tree(f) == Some(JsonView::Array(t)),
            out@.len() == i,
            forall|k: int| 0 <= k < i ==> sym_entry_json(#[trigger] t[k]) == Some(out@[k]@),
    {
        match read_sym_entry(&a[i]) {
            Some(n) => {
                out.push(n);
            },
            None => {
                assert(sym_entry_json(t[i as int]) is None);
                return None;
            },
        }
    }
    assert(symbol_views(out@) =~= Seq::new(t.len(), |i: int| sym_entry_json(t[i]).unwrap()));
    Some(out)
}

fn read_lib_syms(v: &Json) -> (r: Option<LibSyms>)
    ensures
        match r {
            Some(l) => lib_syms_json(v.value()) == Some(l@),
            None => lib_syms_json(v.value()) is None,
        },
{
    if !record(v, 2) {
        return None;
    }
    let debug_name = read_text_field(read_field(v, "debug_name", 0));
    let symbol_table = read_sym_table(read_field(v, "symbol_table", 1));
    match (debug_name, symbol_table) {
        (Some(debug_name), Some(symbol_table)) => Some(LibSyms { debug_name, symbol_table }),
        _ => None,
    }
}

fn read_all_syms(f: Option<&Json>) -> (r: Option<Vec<LibSyms>>)
    ensures
        match r {
            Some(s) => all_syms_json(opt_tree(f)) == Some(lib_views(s@)),
            None => all_syms_json(opt_tree(f)) is None,
        },
{
    let v = match f {
        Some(v) => v,
        None => {
            return None;
        },
    };
    let a = match v.as_array() {
        Some(a) => a,
        None => {
            return None;
        },
    };
    let ghost t = json_values(a@);
    let mut out: Vec<LibSyms> = Vec::new();
    for i in 0..a.len()
        invariant
            t == json_values(a@),
            opt_tree(f) == Some(JsonView::Array(t)),
            out@.len() == i,
            forall|k: int| 0 <= k < i ==> lib_syms_json(#[trigger] t[k]) == Some(out@[k]@),
    {
        match read_lib_syms(&a[i]) {
            Some(n) => {
                out.push(n);
            },
            None => {
                assert(lib_syms_json(t[i as int]) is None);
                return None;
            },
        }
    }
    assert(lib_views(out@) =~= Seq::new(t.len(), |i: int| lib_syms_json(t[i]).unwrap()));
    Some(out)
}

impl SamplySyms {
    /// Reads a `.syms.json` file, and puts the symbols of each module in order of address.
    pub fn load(bytes: &[u8]) -> (r: Result<SamplySyms, ReadError>)
        ensures
            match bytes_json(bytes@) {
                None => r == Err::<SamplySyms, ReadError>(ReadError::Json),
                Some(j) => match samply_json(j) {
                    None => r == Err::<SamplySyms, ReadError>(ReadError::Shape),
                    Some(s) => r matches Ok(out) && out@ == (SamplySymsView {
                        data: sorted_libs(s.data),
                        string_table: s.string_table,
                    }),
                },
            },
    {
        let v = match read_bytes(bytes) {
            Some(v) => v,
            None => {
                return Err(ReadError::Json);
            },
        };
        if !record(&v, 2) {
            return Err(ReadError::Shape);
        }
        let data = match read_all_syms(read_field(&v, "data", 0)) {
            Some(x) => x,
            None => {
                return Err(ReadError::Shape);
            },
        };
        match read_strings_field(read_field(&v, "string_table", 1)) {
            Some(string_table) => Ok(SamplySyms { data: sort_libs(data), string_table }),
            None => Err(ReadError::Shape),
        }
    }
}

} // verus!

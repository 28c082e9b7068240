//! Reading Speedscope files.
use vstd::prelude::*;
use crate::folded::EncodedPprof;
use crate::json::{as_bits, as_uint, JsonView};
use crate::json_read::{
    as_text, field, is_record, opt_int, opt_text, opt_tree, read_field, read_opt_int, read_opt_text,
    read_text, record,
};
use crate::json_text::{json_values, read_bytes, text_json, Json};
use crate::resolve::{frame_views, Frame, FrameView};
use crate::speedscope::{
    import_file, imported, index_lists, sampled_views, SampledProfile, SampledProfileView,
    SpeedscopeError, SpeedscopeFile, SpeedscopeFileView, SpeedscopeImportOptions,
};

verus! {

/// A string that must be there.
pub open spec fn text_field(f: Option<JsonView>) -> Option<Seq<char>> {
    match f {
        Some(j) => as_text(j),
        None => None,
    }
}

/// An index.
pub open spec fn as_index(j: JsonView) -> Option<usize> {
    match as_uint(j) {
        Some(n) => if n <= usize::MAX {
            Some(n as usize)
        } else {
            None
        },
        None => None,
    }
}

/// A list of indices.
pub open spec fn indices_json(j: JsonView) -> Option<Seq<usize>> {
    match j {
        JsonView::Array(a) => if forall|i: int| 0 <= i < a.len() ==> as_index(#[trigger] a[i]) is Some {
            Some(Seq::new(a.len(), |i: int| as_index(a[i]).unwrap()))
        } else {
            None
        },
        _ => None,
    }
}

/// A list of lists of indices.
pub open spec fn stacks_json(f: Option<JsonView>) -> Option<Seq<Seq<usize>>> {
    match f {
        Some(JsonView::Array(a)) => if forall|i: int| 0 <= i < a.len() ==> indices_json(#[trigger] a[i]) is Some {
            Some(Seq::new(a.len(), |i: int| indices_json(a[i]).unwrap()))
        } else {
            None
        },
        _ => None,
    }
}

/// A list of numbers, empty where the field is missing.
pub open spec fn weights_json(f: Option<JsonView>) -> Option<Seq<u64>> {
    match f {
        None => Some(Seq::empty()),
        Some(JsonView::Array(a)) => if forall|i: int| 0 <= i < a.len() ==> as_bits(#[trigger] a[i]) is Some {
            Some(Seq::new(a.len(), |i: int| as_bits(a[i]).unwrap()))
        } else {
            None
        },
        _ => None,
    }
}

/// A frame.
pub open spec fn frame_json(j: JsonView) -> Option<FrameView> {
    let name = text_field(field(j, "name"@, 0));
    let file = opt_text(field(j, "file"@, 1));
    let line = opt_int(field(j, "line"@, 2));
    let col = opt_int(field(j, "col"@, 3));
    if is_record(j, 4) && name is Some && file is Some && line is Some && col is Some {
        Some(
            FrameView { name: name.unwrap(), file: file.unwrap(), line: line.unwrap(), col: col.unwrap() },
        )
    } else {
        None
    }
}

/// The frames of a file.
pub open spec fn frames_json(f: Option<JsonView>) -> Option<Seq<FrameView>> {
    match f {
        Some(JsonView::Array(a)) => if forall|i: int| 0 <= i < a.len() ==> frame_json(#[trigger] a[i]) is Some {
            Some(Seq::new(a.len(), |i: int| frame_json(a[i]).unwrap()))
        } else {
            None
        },
        _ => None,
    }
}

/// A number that must be there.
pub open spec fn number_field(f: Option<JsonView>) -> Option<u64> {
    match f {
        Some(j) => as_bits(j),
        None => None,
    }
}

/// A profile of a file.
pub open spec fn sampled_json(j: JsonView) -> Option<SampledProfileView> {
    let ty = text_field(field(j, "type"@, 0));
    let name = text_field(field(j, "name"@, 1));
    let unit = text_field(field(j, "unit"@, 2));
    let start = number_field(field(j, "startValue"@, 3));
    let end = number_field(field(j, "endValue"@, 4));
    let samples = stacks_json(field(j, "samples"@, 5));
    let weights = weights_json(field(j, "weights"@, 6));
    if is_record(j, 7) && ty is Some && name is Some && unit is Some && start is Some && end is Some
        && samples is Some && weights is Some {
        Some(
            SampledProfileView {
                profile_type: ty.unwrap(),
                unit: unit.unwrap(),
                start_value: start.unwrap(),
                end_value: end.unwrap(),
                samples: samples.unwrap(),
                weights: weights.unwrap(),
            },
        )
    } else {
        None
    }
}

/// The profiles of a file.
pub open spec fn profiles_json(f: Option<JsonView>) -> Option<Seq<SampledProfileView>> {
    match f {
        Some(JsonView::Array(a)) => if forall|i: int| 0 <= i < a.len() ==> sampled_json(#[trigger] a[i]) is Some {
            Some(Seq::new(a.len(), |i: int| sampled_json(a[i]).unwrap()))
        } else {
            None
        },
        _ => None,
    }
}

/// The frames that the profiles of a file share.
pub open spec fn shared_json(f: Option<JsonView>) -> Option<Seq<FrameView>> {
    match f {
        Some(j) => if is_record(j, 1) {
            frames_json(field(j, "frames"@, 0))
        } else {
            None
        },
        None => None,
    }
}

/// A Speedscope file.
pub open spec fn file_json(j: JsonView) -> Option<SpeedscopeFileView> {
    let active = match field(j, "activeProfileIndex"@, 2) {
        Some(n) => as_index(n),
        None => None,
    };
    let frames = shared_json(field(j, "shared"@, 4));
    let profiles = profiles_json(field(j, "profiles"@, 5));
    if is_record(j, 6) && text_field(field(j, "$schema"@, 0)) is Some && text_field(field(j, "name"@, 1)) is Some
        && active is Some && text_field(field(j, "exporter"@, 3)) is Some && frames is Some && profiles is Some {
        Some(SpeedscopeFileView { frames: frames.unwrap(), profiles: profiles.unwrap() })
    } else {
        None
    }
}

pub(crate) fn read_text_field(f: Option<&Json>) -> (r: Option<String>)
    ensures
        match r {
            Some(s) => text_field(opt_tree(f)) == Some(s@),
            None => text_field(opt_tree(f)) is None,
        },
{
    match f {
        Some(v) => read_text(v),
        None => None,
    }
}

pub(crate) fn read_index(v: &Json) -> (r: Option<usize>)
    ensures
        r == as_index(v.value()),
{
    match v.as_u64() {
        Some(n) => if n <= usize::MAX as u64 {
            Some(n as usize)
        } else {
            None
        },
        None => None,
    }
}

fn read_indices(v: &Json) -> (r: Option<Vec<usize>>)
    ensures
        match r {
            Some(s) => indices_json(v.value()) == Some(s@),
            None => indices_json(v.value()) is None,
        },
{
    let a = match v.as_array() {
        Some(a) => a,
        None => {
            return None;
        },
    };
    let ghost t = json_values(a@);
    let mut out: Vec<usize> = Vec::new();
    for i in 0..a.len()
        invariant
            t == json_values(a@),
            v.value() == JsonView::Array(t),
            out@.len() == i,
            forall|k: int| 0 <= k < i ==> as_index(#[trigger] t[k]) == Some(out@[k]),
    {
        match read_index(&a[i]) {
            Some(n) => {
                out.push(n);
            },
            None => {
                assert(as_index(t[i as int]) is None);
                return None;
            },
        }
    }
    assert(out@ =~= Seq::new(t.len(), |i: int| as_index(t[i]).unwrap()));
    Some(out)
}

fn read_stacks(f: Option<&Json>) -> (r: Option<Vec<Vec<usize>>>)
    ensures
        match r {
            Some(s) => stacks_json(opt_tree(f)) == Some(index_lists(s@)),
            None => stacks_json(opt_tree(f)) is None,
        },
{
    let v = match f {
        Some(v) => v,
        None => {
            return None;
        },
    };
    let a = match v.as_array() {
        Some(a) => a,
        None => {
            return None;
        },
    };
    let ghost t = json_values(a@);
    let mut out: Vec<Vec<usize>> = Vec::new();
    for i in 0..a.len()
        invariant
            t == json_values(a@),
            opt_tree(f) == Some(JsonView::Array(t)),
            out@.len() == i,
            forall|k: int| 0 <= k < i ==> indices_json(#[trigger] t[k]) == Some(out@[k]@),
    {
        match read_indices(&a[i]) {
            Some(n) => {
                out.push(n);
            },
            None => {
                assert(indices_json(t[i as int]) is None);
                return None;
            },
        }
    }
    assert(index_lists(out@) =~= Seq::new(t.len(), |i: int| indices_json(t[i]).unwrap()));
    Some(out)
}

pub(crate) fn read_weights(f: Option<&Json>) -> (r: Option<Vec<u64>>)
    ensures
        match r {
            Some(s) => weights_json(opt_tree(f)) == Some(s@),
            None => weights_json(opt_tree(f)) is None,
        },
{
    let v = match f {
        Some(v) => v,
        None => {
            return Some(Vec::new());
        },
    };
    let a = match v.as_array() {
        Some(a) => a,
        None => {
            return None;
        },
    };
    let ghost t = json_values(a@);
    let mut out: Vec<u64> = Vec::new();
    for i in 0..a.len()
        invariant
            t == json_values(a@),
            opt_tree(f) == Some(JsonView::Array(t)),
            out@.len() == i,
            forall|k: int| 0 <= k < i ==> as_bits(#[trigger] t[k]) == Some(out@[k]),
    {
        match a[i].number_bits() {
            Some(n) => {
                out.push(n);
            },
            None => {
                assert(as_bits(t[i as int]) is None);
                return None;
            },
        }
    }
    assert(out@ =~= Seq::new(t.len(), |i: int| as_bits(t[i]).unwrap()));
    Some(out)
}

fn read_frame(v: &Json) -> (r: Option<Frame>)
    ensures
        match r {
            Some(f) => frame_json(v.value()) == Some(f@),
            None => frame_json(v.value()) is None,
        },
{
    if !record(v, 4) {
        return None;
    }
    let name = match read_text_field(read_field(v, "name", 0)) {
        Some(s) => s,
        None => {
            return None;
        },
    };
    let file = match read_opt_text(read_field(v, "file", 1)) {
        Some(s) => s,
        None => {
            return None;
        },
    };
    let line: Option<i64> = match read_opt_int(read_field(v, "line", 2)) {
        Some(n) => n,
        None => {
            return None;
        },
    };
    let col: Option<i64> = match read_opt_int(read_field(v, "col", 3)) {
        Some(n) => n,
        None => {
            return None;
        },
    };
    Some(Frame { name, file, line, col })
}

fn read_frames(f: Option<&Json>) -> (r: Option<Vec<Frame>>)
    ensures
        match r {
            Some(s) => frames_json(opt_tree(f)) == Some(frame_views(s@)),
            None => frames_json(opt_tree(f)) is None,
        },
{
    let v = match f {
        Some(v) => v,
        None => {
            return None;
        },
    };
    let a = match v.as_array() {
        Some(a) => a,
        None => {
            return None;
        },
    };
    let ghost t = json_values(a@);
    let mut out: Vec<Frame> = Vec::new();
    for i in 0..a.len()
        invariant
            t == json_values(a@),
            opt_tree(f) == Some(JsonView::Array(t)),
            out@.len() == i,
            forall|k: int| 0 <= k < i ==> frame_json(#[trigger] t[k]) == Some(out@[k]@),
    {
        match read_frame(&a[i]) {
            Some(n) => {
                out.push(n);
            },
            None => {
                assert(frame_json(t[i as int]) is None);
                return None;
            },
        }
    }
    assert(frame_views(out@) =~= Seq::new(t.len(), |i: int| frame_json(t[i]).unwrap()));
    Some(out)
}

fn read_number_field(f: Option<&Json>) -> (r: Option<u64>)
    ensures
        r == number_field(opt_tree(f)),
{
    match f {
        Some(v) => v.number_bits(),
        None => None,
    }
}

fn read_sampled(v: &Json) -> (r: Option<SampledProfile>)
    ensures
        match r {
            Some(p) => sampled_json(v.value()) == Some(p@),
            None => sampled_json(v.value()) is None,
        },
{
    if !record(v, 7) {
        return None;
    }
    let profile_type = match read_text_field(read_field(v, "type", 0)) {
        Some(s) => s,
        None => {
            return None;
        },
    };
    if read_text_field(read_field(v, "name", 1)).is_none() {
        return None;
    }
    let unit = match read_text_field(read_field(v, "unit", 2)) {
        Some(s) => s,
        None => {
            return None;
        },
    };
    let start_value: u64 = match read_number_field(read_field(v, "startValue", 3)) {
        Some(n) => n,
        None => {
            return None;
        },
    };
    let end_value: u64 = match read_number_field(read_field(v, "endValue", 4)) {
        Some(n) => n,
        None => {
            return None;
        },
    };
    let samples = match read_stacks(read_field(v, "samples", 5)) {
        Some(s) => s,
        None => {
            return None;
        },
    };
    let weights = match read_weights(read_field(v, "weights", 6)) {
        Some(s) => s,
        None => {
            return None;
        },
    };
    Some(SampledProfile { profile_type, unit, start_value, end_value, samples, weights })
}

fn read_profiles(f: Option<&Json>) -> (r: Option<Vec<SampledProfile>>)
    ensures
        match r {
            Some(s) => profiles_json(opt_tree(f)) == Some(sampled_views(s@)),
            None => profiles_json(opt_tree(f)) is None,
        },
{
    let v = match f {
        Some(v) => v,
        None => {
            return None;
        },
    };
    let a = match v.as_array() {
        Some(a) => a,
        None => {
            return None;
        },
    };
    let ghost t = json_values(a@);
    let mut out: Vec<SampledProfile> = Vec::new();
    for i in 0..a.len()
        invariant
            t == json_values(a@),
            opt_tree(f) == Some(JsonView::Array(t)),
            out@.len() == i,
            forall|k: int| 0 <= k < i ==> sampled_json(#[trigger] t[k]) == Some(out@[k]@),
    {
        match read_sampled(&a[i]) {
            Some(n) => {
                out.push(n);
            },
            None => {
                assert(sampled_json(t[i as int]) is None);
                return None;
            },
        }
    }
    assert(sampled_views(out@) =~= Seq::new(t.len(), |i: int| sampled_json(t[i]).unwrap()));
    Some(out)
}

fn read_file(v: &Json) -> (r: Option<SpeedscopeFile>)
    ensures
        match r {
            Some(f) => file_json(v.value()) == Some(f@),
            None => file_json(v.value()) is None,
        },
{
    if !record(v, 6) {
        return None;
    }
    if read_text_field(read_field(v, "$schema", 0)).is_none() || read_text_field(
        read_field(v, "name", 1),
    ).is_none() || read_text_field(read_field(v, "exporter", 3)).is_none() {
        return None;
    }
    match read_field(v, "activeProfileIndex", 2) {
        Some(n) => {
            if read_index(n).is_none() {
                return None;
            }
        },
        None => {
            return None;
        },
    }
    let frames = match read_field(v, "shared", 4) {
        Some(s) => {
            if !record(s, 1) {
                return None;
            }
            match read_frames(read_field(s, "frames", 0)) {
                Some(f) => f,
                None => {
                    return None;
                },
            }
        },
        None => {
            return None;
        },
    };
    match read_profiles(read_field(v, "profiles", 5)) {
        Some(profiles) => Some(SpeedscopeFile { frames, profiles }),
        None => None,
    }
}

/// What the import of a text gives.
pub open spec fn text_imported(
    json: Seq<char>,
    opts: SpeedscopeImportOptions,
    r: Result<EncodedPprof, SpeedscopeError>,
) -> bool {
    match text_json(json) {
        None => r == Err::<EncodedPprof, SpeedscopeError>(SpeedscopeError::Json),
        Some(j) => match file_json(j) {
            None => r == Err::<EncodedPprof, SpeedscopeError>(SpeedscopeError::Shape),
            Some(file) => imported(file, opts, r),
        },
    }
}

/// Converts a sampled profile of a Speedscope file into pprof.
pub fn speedscope_to_pprof(json: &str, opts: &SpeedscopeImportOptions) -> (r: Result<EncodedPprof, SpeedscopeError>)
    ensures
        text_imported(json@, *opts, r),
{
    match read_bytes(json.as_bytes()) {
        Some(v) => match read_file(&v) {
            Some(file) => import_file(&file, opts),
            None => Err(SpeedscopeError::Shape),
        },
        None => Err(SpeedscopeError::Json),
    }
}

} // verus!

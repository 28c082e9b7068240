//! pprof profiles as protobuf bytes: one encoder and one decoder per message, and
//! the law that the decoder undoes the encoder.
use vstd::prelude::*;
use vstd::utf8::{decode_utf8, encode_utf8, valid_utf8};
use crate::proto::{
    empty_location, empty_profile, empty_sample, PprofFunction, Label, Line, LocationView, Mapping,
    ProfileView, SampleView, ValueType,
};
use crate::wire::{
    field_bytes, merged, packed_bytes, read_varints, repeated_bytes, scalar_bytes, Field,
};

verus! {

/// What `std::string::FromUtf8Error` holds stays unread.
#[verifier::external_type_specification]
#[verifier::external_body]
pub struct ExFromUtf8Error(std::string::FromUtf8Error);

/// `String::from_utf8` succeeds exactly on well-formed UTF-8, and gives the text that
/// the bytes encode.
pub assume_specification[ String::from_utf8 ](vec: Vec<u8>) -> (r: Result<
    String,
    std::string::FromUtf8Error,
>)
    ensures
        match r {
            Ok(s) => valid_utf8(vec@) && s@ == decode_utf8(vec@),
            Err(_) => !valid_utf8(vec@),
        },
;

pub open spec fn bool_word(b: bool) -> u64 {
    if b {
        1
    } else {
        0
    }
}

/// The two's complement words of signed integers.
pub open spec fn words(vs: Seq<i64>) -> Seq<u64> {
    Seq::new(vs.len(), |i: int| vs[i] as u64)
}

/// The signed integers with these two's complement words.
pub open spec fn signed(vs: Seq<u64>) -> Seq<i64> {
    Seq::new(vs.len(), |i: int| vs[i] as i64)
}

// ---- what the bytes of each message are ----

pub open spec fn value_type_bytes(v: ValueType) -> Seq<u8> {
    scalar_bytes(1, v.ty as u64) + scalar_bytes(2, v.unit as u64)
}

pub open spec fn label_bytes(v: Label) -> Seq<u8> {
    scalar_bytes(1, v.key as u64) + (scalar_bytes(2, v.text as u64) + (scalar_bytes(3, v.num as u64)
        + scalar_bytes(4, v.num_unit as u64)))
}

pub open spec fn mapping_bytes(v: Mapping) -> Seq<u8> {
    scalar_bytes(1, v.id) + (scalar_bytes(2, v.memory_start) + (scalar_bytes(3, v.memory_limit) + (
    scalar_bytes(4, v.file_offset) + (scalar_bytes(5, v.filename as u64) + (scalar_bytes(
        6,
        v.build_id as u64,
    ) + (scalar_bytes(7, bool_word(v.has_functions)) + (scalar_bytes(8, bool_word(v.has_filenames))
        + (scalar_bytes(9, bool_word(v.has_line_numbers)) + scalar_bytes(
        10,
        bool_word(v.has_inline_frames),
    )))))))))
}

pub open spec fn line_bytes(v: Line) -> Seq<u8> {
    scalar_bytes(1, v.function_id) + (scalar_bytes(2, v.line as u64) + scalar_bytes(
        3,
        v.column as u64,
    ))
}

pub open spec fn function_bytes(v: PprofFunction) -> Seq<u8> {
    scalar_bytes(1, v.id) + (scalar_bytes(2, v.name as u64) + (scalar_bytes(3, v.system_name as u64)
        + (scalar_bytes(4, v.filename as u64) + scalar_bytes(5, v.start_line as u64))))
}

pub open spec fn label_list(vs: Seq<Label>) -> Seq<Seq<u8>> {
    Seq::new(vs.len(), |i: int| label_bytes(vs[i]))
}

pub open spec fn line_list(vs: Seq<Line>) -> Seq<Seq<u8>> {
    Seq::new(vs.len(), |i: int| line_bytes(vs[i]))
}

pub open spec fn sample_bytes(v: SampleView) -> Seq<u8> {
    packed_bytes(1, v.location_id) + (packed_bytes(2, words(v.value)) + repeated_bytes(
        3,
        label_list(v.label),
    ))
}

pub open spec fn location_bytes(v: LocationView) -> Seq<u8> {
    scalar_bytes(1, v.id) + (scalar_bytes(2, v.mapping_id) + (scalar_bytes(3, v.address) + (
    repeated_bytes(4, line_list(v.line)) + scalar_bytes(5, bool_word(v.is_folded)))))
}

pub open spec fn value_type_list(vs: Seq<ValueType>) -> Seq<Seq<u8>> {
    Seq::new(vs.len(), |i: int| value_type_bytes(vs[i]))
}

pub open spec fn sample_list(vs: Seq<SampleView>) -> Seq<Seq<u8>> {
    Seq::new(vs.len(), |i: int| sample_bytes(vs[i]))
}

pub open spec fn mapping_list(vs: Seq<Mapping>) -> Seq<Seq<u8>> {
    Seq::new(vs.len(), |i: int| mapping_bytes(vs[i]))
}

pub open spec fn location_list(vs: Seq<LocationView>) -> Seq<Seq<u8>> {
    Seq::new(vs.len(), |i: int| location_bytes(vs[i]))
}

pub open spec fn function_list(vs: Seq<PprofFunction>) -> Seq<Seq<u8>> {
    Seq::new(vs.len(), |i: int| function_bytes(vs[i]))
}

pub open spec fn text_list(vs: Seq<Seq<char>>) -> Seq<Seq<u8>> {
    Seq::new(vs.len(), |i: int| encode_utf8(vs[i]))
}

/// A message field that may be absent.
pub open spec fn period_type_bytes(v: Option<ValueType>) -> Seq<u8> {
    match v {
        Some(t) => field_bytes(11, Field::Bytes(value_type_bytes(t))),
        None => Seq::empty(),
    }
}

/// The fields from `drop_frames` on.
pub open spec fn profile_tail_bytes(p: ProfileView) -> Seq<u8> {
    scalar_bytes(7, p.drop_frames as u64) + (scalar_bytes(8, p.keep_frames as u64) + (scalar_bytes(
        9,
        p.time_nanos as u64,
    ) + (scalar_bytes(10, p.duration_nanos as u64) + (period_type_bytes(p.period_type) + (
    scalar_bytes(12, p.period as u64) + (packed_bytes(13, words(p.comment)) + (scalar_bytes(
        14,
        p.default_sample_type as u64,
    ) + scalar_bytes(15, p.doc_url as u64))))))))
}

/// The bytes of a profile: its fields in tag order, unset ones left out.
pub open spec fn profile_bytes(p: ProfileView) -> Seq<u8> {
    repeated_bytes(1, value_type_list(p.sample_type)) + (repeated_bytes(2, sample_list(p.sample)) + (
    repeated_bytes(3, mapping_list(p.mapping)) + (repeated_bytes(4, location_list(p.location)) + (
    repeated_bytes(5, function_list(p.function)) + (repeated_bytes(6, text_list(p.string_table))
        + profile_tail_bytes(p))))))
}

// ---- how each message takes a field in ----

pub open spec fn as_int(f: Field) -> Option<i64> {
    match f {
        Field::Varint(v) => Some(v as i64),
        _ => None,
    }
}

pub open spec fn as_uint(f: Field) -> Option<u64> {
    match f {
        Field::Varint(v) => Some(v),
        _ => None,
    }
}

/// The integers that a packed or a single field adds to a list.
pub open spec fn as_uints(f: Field) -> Option<Seq<u64>> {
    match f {
        Field::Varint(v) => Some(seq![v]),
        Field::Bytes(b) => read_varints(b),
        Field::Other => None,
    }
}

pub open spec fn value_type_step(m: ValueType, tag: nat, f: Field) -> Option<ValueType> {
    if tag == 1 {
        match as_int(f) {
            Some(x) => Some(ValueType { ty: x, ..m }),
            None => None,
        }
    } else if tag == 2 {
        match as_int(f) {
            Some(x) => Some(ValueType { unit: x, ..m }),
            None => None,
        }
    } else {
        Some(m)
    }
}

pub open spec fn label_step(m: Label, tag: nat, f: Field) -> Option<Label> {
    if 1 <= tag <= 4 {
        match as_int(f) {
            Some(x) => Some(
                if tag == 1 {
                    Label { key: x, ..m }
                } else if tag == 2 {
                    Label { text: x, ..m }
                } else if tag == 3 {
                    Label { num: x, ..m }
                } else {
                    Label { num_unit: x, ..m }
                },
            ),
            None => None,
        }
    } else {
        Some(m)
    }
}

pub open spec fn mapping_step(m: Mapping, tag: nat, f: Field) -> Option<Mapping> {
    if 1 <= tag <= 10 {
        match f {
            Field::Varint(v) => Some(
                if tag == 1 {
                    Mapping { id: v, ..m }
                } else if tag == 2 {
                    Mapping { memory_start: v, ..m }
                } else if tag == 3 {
                    Mapping { memory_limit: v, ..m }
                } else if tag == 4 {
                    Mapping { file_offset: v, ..m }
                } else if tag == 5 {
                    Mapping { filename: v as i64, ..m }
                } else if tag == 6 {
                    Mapping { build_id: v as i64, ..m }
                } else if tag == 7 {
                    Mapping { has_functions: v != 0, ..m }
                } else if tag == 8 {
                    Mapping { has_filenames: v != 0, ..m }
                } else if tag == 9 {
                    Mapping { has_line_numbers: v != 0, ..m }
                } else {
                    Mapping { has_inline_frames: v != 0, ..m }
                },
            ),
            _ => None,
        }
    } else {
        Some(m)
    }
}

pub open spec fn line_step(m: Line, tag: nat, f: Field) -> Option<Line> {
    if 1 <= tag <= 3 {
        match f {
            Field::Varint(v) => Some(
                if tag == 1 {
                    Line { function_id: v, ..m }
                } else if tag == 2 {
                    Line { line: v as i64, ..m }
                } else {
                    Line { column: v as i64, ..m }
                },
            ),
            _ => None,
        }
    } else {
        Some(m)
    }
}

pub open spec fn function_step(m: PprofFunction, tag: nat, f: Field) -> Option<PprofFunction> {
    if 1 <= tag <= 5 {
        match f {
            Field::Varint(v) => Some(
                if tag == 1 {
                    PprofFunction { id: v, ..m }
                } else if tag == 2 {
                    PprofFunction { name: v as i64, ..m }
                } else if tag == 3 {
                    PprofFunction { system_name: v as i64, ..m }
                } else if tag == 4 {
                    PprofFunction { filename: v as i64, ..m }
                } else {
                    PprofFunction { start_line: v as i64, ..m }
                },
            ),
            _ => None,
        }
    } else {
        Some(m)
    }
}

pub open spec fn no_value_type() -> ValueType {
    ValueType { ty: 0, unit: 0 }
}

pub open spec fn no_label() -> Label {
    Label { key: 0, text: 0, num: 0, num_unit: 0 }
}

pub open spec fn no_mapping() -> Mapping {
    Mapping {
        id: 0,
        memory_start: 0,
        memory_limit: 0,
        file_offset: 0,
        filename: 0,
        build_id: 0,
        has_functions: false,
        has_filenames: false,
        has_line_numbers: false,
        has_inline_frames: false,
    }
}

pub open spec fn no_line() -> Line {
    Line { function_id: 0, line: 0, column: 0 }
}

pub open spec fn no_function() -> PprofFunction {
    PprofFunction { id: 0, name: 0, system_name: 0, filename: 0, start_line: 0 }
}

/// A value type with the fields of `b` taken in.
pub open spec fn read_value_type(m: ValueType, b: Seq<u8>) -> Option<ValueType> {
    merged(m, b, 1, |m: ValueType, tag: nat, f: Field| value_type_step(m, tag, f))
}

pub open spec fn read_label(m: Label, b: Seq<u8>) -> Option<Label> {
    merged(m, b, 2, |m: Label, tag: nat, f: Field| label_step(m, tag, f))
}

pub open spec fn read_mapping(m: Mapping, b: Seq<u8>) -> Option<Mapping> {
    merged(m, b, 1, |m: Mapping, tag: nat, f: Field| mapping_step(m, tag, f))
}

pub open spec fn read_line(m: Line, b: Seq<u8>) -> Option<Line> {
    merged(m, b, 2, |m: Line, tag: nat, f: Field| line_step(m, tag, f))
}

pub open spec fn read_function(m: PprofFunction, b: Seq<u8>) -> Option<PprofFunction> {
    merged(m, b, 1, |m: PprofFunction, tag: nat, f: Field| function_step(m, tag, f))
}

pub open spec fn sample_step(m: SampleView, tag: nat, f: Field) -> Option<SampleView> {
    if tag == 1 {
        match as_uints(f) {
            Some(vs) => Some(SampleView { location_id: m.location_id + vs, ..m }),
            None => None,
        }
    } else if tag == 2 {
        match as_uints(f) {
            Some(vs) => Some(SampleView { value: m.value + signed(vs), ..m }),
            None => None,
        }
    } else if tag == 3 {
        match f {
            Field::Bytes(b) => match read_label(no_label(), b) {
                Some(l) => Some(SampleView { label: m.label.push(l), ..m }),
                None => None,
            },
            _ => None,
        }
    } else {
        Some(m)
    }
}

pub open spec fn read_sample(m: SampleView, b: Seq<u8>) -> Option<SampleView> {
    merged(m, b, 1, |m: SampleView, tag: nat, f: Field| sample_step(m, tag, f))
}

pub open spec fn location_step(m: LocationView, tag: nat, f: Field) -> Option<LocationView> {
    if tag == 1 || tag == 2 || tag == 3 || tag == 5 {
        match f {
            Field::Varint(v) => Some(
                if tag == 1 {
                    LocationView { id: v, ..m }
                } else if tag == 2 {
                    LocationView { mapping_id: v, ..m }
                } else if tag == 3 {
                    LocationView { address: v, ..m }
                } else {
                    LocationView { is_folded: v != 0, ..m }
                },
            ),
            _ => None,
        }
    } else if tag == 4 {
        match f {
            Field::Bytes(b) => match read_line(no_line(), b) {
                Some(l) => Some(LocationView { line: m.line.push(l), ..m }),
                None => None,
            },
            _ => None,
        }
    } else {
        Some(m)
    }
}

pub open spec fn read_location(m: LocationView, b: Seq<u8>) -> Option<LocationView> {
    merged(m, b, 1, |m: LocationView, tag: nat, f: Field| location_step(m, tag, f))
}

/// How a profile takes in one entry of a list of messages or strings.
pub open spec fn profile_entry_step(m: ProfileView, tag: nat, b: Seq<u8>) -> Option<ProfileView> {
    if tag == 1 {
        match read_value_type(no_value_type(), b) {
            Some(x) => Some(ProfileView { sample_type: m.sample_type.push(x), ..m }),
            None => None,
        }
    } else if tag == 2 {
        match read_sample(empty_sample(), b) {
            Some(x) => Some(ProfileView { sample: m.sample.push(x), ..m }),
            None => None,
        }
    } else if tag == 3 {
        match read_mapping(no_mapping(), b) {
            Some(x) => Some(ProfileView { mapping: m.mapping.push(x), ..m }),
            None => None,
        }
    } else if tag == 4 {
        match read_location(empty_location(), b) {
            Some(x) => Some(ProfileView { location: m.location.push(x), ..m }),
            None => None,
        }
    } else if tag == 5 {
        match read_function(no_function(), b) {
            Some(x) => Some(ProfileView { function: m.function.push(x), ..m }),
            None => None,
        }
    } else if tag == 6 {
        if valid_utf8(b) {
            Some(ProfileView { string_table: m.string_table.push(decode_utf8(b)), ..m })
        } else {
            None
        }
    } else {
        match read_value_type(
            match m.period_type {
                Some(t) => t,
                None => no_value_type(),
            },
            b,
        ) {
            Some(x) => Some(ProfileView { period_type: Some(x), ..m }),
            None => None,
        }
    }
}

/// How a profile takes in a scalar.
pub open spec fn profile_scalar_step(m: ProfileView, tag: nat, v: i64) -> ProfileView {
    if tag == 7 {
        ProfileView { drop_frames: v, ..m }
    } else if tag == 8 {
        ProfileView { keep_frames: v, ..m }
    } else if tag == 9 {
        ProfileView { time_nanos: v, ..m }
    } else if tag == 10 {
        ProfileView { duration_nanos: v, ..m }
    } else if tag == 12 {
        ProfileView { period: v, ..m }
    } else if tag == 14 {
        ProfileView { default_sample_type: v, ..m }
    } else {
        ProfileView { doc_url: v, ..m }
    }
}

pub open spec fn profile_step(m: ProfileView, tag: nat, f: Field) -> Option<ProfileView> {
    if 1 <= tag <= 6 || tag == 11 {
        match f {
            Field::Bytes(b) => profile_entry_step(m, tag, b),
            _ => None,
        }
    } else if tag == 13 {
        match as_uints(f) {
            Some(vs) => Some(ProfileView { comment: m.comment + signed(vs), ..m }),
            None => None,
        }
    } else if 7 <= tag <= 15 {
        match as_int(f) {
            Some(v) => Some(profile_scalar_step(m, tag, v)),
            None => None,
        }
    } else {
        Some(m)
    }
}

pub open spec fn read_profile(m: ProfileView, b: Seq<u8>) -> Option<ProfileView> {
    merged(m, b, 0, |m: ProfileView, tag: nat, f: Field| profile_step(m, tag, f))
}

/// The profile that `b` holds. `None` where `b` is no profile.
pub open spec fn decoded(b: Seq<u8>) -> Option<ProfileView> {
    read_profile(empty_profile(), b)
}

} // verus!
